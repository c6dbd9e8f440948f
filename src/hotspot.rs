//! Hotspot scoring of a page: the page is cut into horizontal tiles, each
//! match raises the best score of its query word in the tiles near it, and
//! the page scores as its best tile.
//!
//! Scores are fixed-point integers with 16 fractional bits.

use vstd::prelude::*;
use vstd::pervasive::VecAdditionalExecFns;

verus! {

/// Height of a tile, in rendered pixels.
pub const TILE_SIZE: u32 = 64;

/// Distance from a match within which tiles feel it, in rendered pixels.
pub const HOTSPOT_RADIUS: u32 = 100;

/// Largest fixed-point score that a stored score decodes to.
pub const SCORE_CAP: u64 = 1099511627776;

/// `v` halved `k` times, rounding down.
pub open spec fn halve(v: nat, k: nat) -> nat
    decreases k,
{
    if k == 0 {
        v
    } else {
        halve(v / 2, (k - 1) as nat)
    }
}

/// `v` doubled `k` times, stopping at `SCORE_CAP`.
pub open spec fn double_capped(v: nat, k: nat) -> nat
    decreases k,
{
    if k == 0 {
        if v > SCORE_CAP {
            SCORE_CAP as nat
        } else {
            v
        }
    } else if v >= SCORE_CAP {
        SCORE_CAP as nat
    } else {
        double_capped(v * 2, (k - 1) as nat)
    }
}

/// The fixed-point value of a binary32 score, rounded down and capped;
/// negative numbers, infinities and NaN count as zero.
pub open spec fn score_fixed(bits: u32) -> nat {
    let sign = bits / 0x8000_0000;
    let exp = (bits / 0x80_0000) % 256;
    let frac = bits % 0x80_0000;
    if sign == 1 || exp == 255 {
        0
    } else {
        let m: nat = if exp == 0 { frac as nat } else { (frac + 0x80_0000) as nat };
        let e: nat = if exp == 0 { 1 } else { exp as nat };
        if e >= 134 {
            double_capped(m, (e - 134) as nat)
        } else {
            halve(m, (134 - e) as nat)
        }
    }
}

proof fn lemma_double_capped_le(v: nat, k: nat)
    ensures
        double_capped(v, k) <= SCORE_CAP,
    decreases k,
{
    if k > 0 && v < SCORE_CAP {
        lemma_double_capped_le(v * 2, (k - 1) as nat);
    }
}

/// Decodes a stored score into a fixed-point value.
pub fn decode_score(bits: u32) -> (r: u64)
    ensures
        r == score_fixed(bits),
        r <= SCORE_CAP,
{
    let sign = bits / 0x8000_0000;
    let exp = (bits / 0x80_0000) % 256;
    let frac = bits % 0x80_0000;
    if sign == 1 || exp == 255 {
        return 0;
    }
    let m: u64 = if exp == 0 { frac as u64 } else { (frac + 0x80_0000) as u64 };
    let e: u32 = if exp == 0 { 1 } else { exp };
    if e >= 134 {
        let mut v = m;
        let mut k = e - 134;
        while k > 0 && v < SCORE_CAP
            invariant
                v <= SCORE_CAP * 2,
                double_capped(m as nat, (e - 134) as nat) == double_capped(v as nat, k as nat),
            decreases k,
        {
            v = v * 2;
            k = k - 1;
        }
        if v > SCORE_CAP {
            v = SCORE_CAP;
        }
        proof {
            lemma_double_capped_le(m as nat, (e - 134) as nat);
        }
        v
    } else {
        let mut v = m;
        let mut k = 134 - e;
        while k > 0
            invariant
                halve(m as nat, (134 - e) as nat) == halve(v as nat, k as nat),
                v <= m,
            decreases k,
        {
            v = v / 2;
            k = k - 1;
        }
        proof {
            assert(m < 0x100_0000);
        }
        v
    }
}

/// The integer square root: the largest `r` with `r * r <= x`.
pub open spec fn isqrt(x: nat) -> nat
    decreases x,
{
    if x == 0 {
        0
    } else {
        let r = isqrt((x - 1) as nat);
        if (r + 1) * (r + 1) <= x {
            r + 1
        } else {
            r
        }
    }
}

proof fn lemma_isqrt_bounds(x: nat)
    ensures
        isqrt(x) * isqrt(x) <= x < (isqrt(x) + 1) * (isqrt(x) + 1),
    decreases x,
{
    if x > 0 {
        lemma_isqrt_bounds((x - 1) as nat);
        let r = isqrt((x - 1) as nat);
        let s = isqrt(x);
        if (r + 1) * (r + 1) <= x {
            assert(s == r + 1);
            assert(s * s <= x && x < (s + 1) * (s + 1)) by (nonlinear_arith)
                requires
                    s == r + 1,
                    (r + 1) * (r + 1) <= x,
                    x - 1 < (r + 1) * (r + 1),
            ;
        } else {
            assert(s == r);
            assert(s * s <= x && x < (s + 1) * (s + 1)) by (nonlinear_arith)
                requires
                    s == r,
                    (r + 1) * (r + 1) > x,
                    r * r <= x - 1,
            ;
        }
    } else {
        assert(isqrt(x) == 0);
        assert(0 * 0 <= x && x < (0 + 1) * (0 + 1)) by (nonlinear_arith)
            requires
                x == 0,
        ;
    }
}

proof fn lemma_isqrt_unique(x: nat, r: nat)
    requires
        r * r <= x < (r + 1) * (r + 1),
    ensures
        isqrt(x) == r,
{
    lemma_isqrt_bounds(x);
    let s = isqrt(x);
    if s < r {
        assert((s + 1) * (s + 1) <= r * r) by (nonlinear_arith)
            requires
                s + 1 <= r,
        ;
    } else if s > r {
        assert((r + 1) * (r + 1) <= s * s) by (nonlinear_arith)
            requires
                r + 1 <= s,
        ;
    }
}

proof fn lemma_isqrt_monotone(x: nat, y: nat)
    requires
        x <= y,
    ensures
        isqrt(x) <= isqrt(y),
{
    lemma_isqrt_bounds(x);
    lemma_isqrt_bounds(y);
    let a = isqrt(x);
    let b = isqrt(y);
    if a > b {
        assert((b + 1) * (b + 1) <= a * a) by (nonlinear_arith)
            requires
                b + 1 <= a,
        ;
    }
}

/// Integer square root by bisection.
pub fn int_sqrt(x: u64) -> (r: u64)
    ensures
        r == isqrt(x as nat),
{
    let mut lo: u64 = 0;
    let mut hi: u64 = 0x1_0000_0000;
    assert(x < 0x1_0000_0000 * 0x1_0000_0000) by (nonlinear_arith);
    while hi - lo > 1
        invariant
            lo < hi <= 0x1_0000_0000,
            lo * lo <= x,
            x < hi * hi,
        decreases hi - lo,
    {
        let mid = lo + (hi - lo) / 2;
        assert(mid * mid <= 0xFFFF_FFFF * 0xFFFF_FFFF) by (nonlinear_arith)
            requires
                mid < 0x1_0000_0000,
        ;
        if mid * mid <= x {
            lo = mid;
        } else {
            hi = mid;
        }
    }
    proof {
        assert(hi == lo + 1);
        lemma_isqrt_unique(x as nat, lo as nat);
    }
    lo
}

/// Twice the vertical centre of tile `t`.
pub open spec fn tile_center2(t: int) -> int {
    (2 * t + 1) * TILE_SIZE
}

/// Twice the distance from a point, given doubled, to the centre of tile `t`.
pub open spec fn distance2(y2: int, t: int) -> int {
    if y2 >= tile_center2(t) {
        y2 - tile_center2(t)
    } else {
        tile_center2(t) - y2
    }
}

/// The centre of tile `t` lies within the radius of the point.
pub open spec fn in_reach(y2: int, t: int) -> bool {
    distance2(y2, t) <= 2 * HOTSPOT_RADIUS
}

/// `40000` times the falloff at a doubled distance `d`: the distance is
/// taken as at least half a tile, the falloff is `((R - d) / R)^2` and at
/// least a quarter.
pub open spec fn falloff(d: int) -> int {
    let dc = if d < TILE_SIZE { TILE_SIZE as int } else { d };
    let g = if dc >= 2 * HOTSPOT_RADIUS { 0 } else { 2 * HOTSPOT_RADIUS - dc };
    let f = g * g;
    if f < 10000 {
        10000
    } else {
        f
    }
}

/// What a match of score `s` at doubled height `y2` gives tile `t`.
pub open spec fn contribution(y2: int, t: int, s: nat) -> nat {
    (s * falloff(distance2(y2, t)) / 40000) as nat
}

/// The tiles after a match of query word `w` with score `s` at doubled height `y2`.
pub open spec fn updated(tiles: Seq<Seq<u64>>, y2: int, w: int, s: nat) -> Seq<Seq<u64>> {
    Seq::new(
        tiles.len(),
        |t: int|
            if in_reach(y2, t) && contribution(y2, t, s) > tiles[t][w] {
                tiles[t].update(w, contribution(y2, t, s) as u64)
            } else {
                tiles[t]
            },
    )
}

/// The sum over query words of the square roots of a tile's best scores.
pub open spec fn tile_total(tile: Seq<u64>) -> nat
    decreases tile.len(),
{
    if tile.len() == 0 {
        0
    } else {
        tile_total(tile.drop_last()) + isqrt(tile.last() as nat)
    }
}

/// The best tile total of a page, zero for a page without tiles.
pub open spec fn max_total(tiles: Seq<Seq<u64>>) -> nat
    decreases tiles.len(),
{
    if tiles.len() == 0 {
        0
    } else {
        let rest = max_total(tiles.drop_last());
        let t = tile_total(tiles.last());
        if t > rest {
            t
        } else {
            rest
        }
    }
}

/// Tiles of `n` query words, all zero, as many as cover `height` pixels.
pub open spec fn blank_tiles(height: nat, n: nat) -> Seq<Seq<u64>> {
    Seq::new(((height + TILE_SIZE - 1) / TILE_SIZE as int) as nat, |t: int| Seq::new(n, |w: int| 0u64))
}

/// Per tile, the best score so far of each query word.
pub struct PageHotspotImage {
    pub tiled_height: u32,
    /// The number of query words.
    pub word_count: usize,
    pub tiles: Vec<Vec<u64>>,
}

impl View for PageHotspotImage {
    type V = Seq<Seq<u64>>;

    open spec fn view(&self) -> Seq<Seq<u64>> {
        self.tiles@.map_values(|t: Vec<u64>| t@)
    }
}

impl PageHotspotImage {
    /// Every tile holds one score per query word, each at most `SCORE_CAP`.
    pub open spec fn wf(&self) -> bool {
        &&& self.tiled_height == self.tiles@.len()
        &&& self.word_count <= 0x1_0000
        &&& forall|t: int| 0 <= t < self@.len() ==> (#[trigger] self@[t]).len() == self.word_count
        &&& forall|t: int, w: int|
            0 <= t < self@.len() && 0 <= w < self.word_count ==> (#[trigger] self@[t][w]) <= SCORE_CAP
    }

    /// A page of `height` pixels for `n` query words, all scores zero.
    pub fn new(height: u32, n: usize) -> (r: PageHotspotImage)
        requires
            n <= 0x1_0000,
        ensures
            r@ == blank_tiles(height as nat, n as nat),
            r.word_count == n,
            r.wf(),
    {
        let tiled_height = ((height as u64 + TILE_SIZE as u64 - 1) / TILE_SIZE as u64) as u32;
        let mut tiles: Vec<Vec<u64>> = Vec::new();
        let mut t: u32 = 0;
        while t < tiled_height
            invariant
                t <= tiled_height,
                tiled_height == (height + TILE_SIZE - 1) / TILE_SIZE as int,
                tiles@.len() == t,
                forall|i: int| 0 <= i < t ==> (#[trigger] tiles@[i])@ == Seq::new(n as nat, |w: int| 0u64),
            decreases tiled_height - t,
        {
            let mut tile: Vec<u64> = Vec::new();
            let mut w: usize = 0;
            while w < n
                invariant
                    w <= n,
                    tile@ == Seq::new(w as nat, |w: int| 0u64),
                decreases n - w,
            {
                tile.push(0);
                assert(tile@ =~= Seq::new((w + 1) as nat, |w: int| 0u64));
                w = w + 1;
            }
            tiles.push(tile);
            t = t + 1;
        }
        let r = PageHotspotImage { tiled_height, word_count: n, tiles };
        assert(r@ =~= blank_tiles(height as nat, n as nat));
        r
    }

    /// Records a match of query word `w` with score `s` at doubled height `y2`.
    pub fn update_score(&mut self, y2: i64, w: usize, s: u64)
        requires
            old(self).wf(),
            w < old(self).word_count,
            s <= SCORE_CAP,
            -4194304 <= y2 <= 4194304,
        ensures
            final(self).wf(),
            final(self).word_count == old(self).word_count,
            final(self)@ == updated(old(self)@, y2 as int, w as int, s as nat),
    {
        let ghost v0 = self@;
        let count = self.tiles.len();
        let mut t: usize = 0;
        while t < count
            invariant
                count == self.tiles@.len(),
                count == v0.len(),
                t <= count,
                self.word_count == old(self).word_count,
                w < self.word_count,
                s <= SCORE_CAP,
                -4194304 <= y2 <= 4194304,
                self.tiled_height == count,
                self.wf(),
                forall|i: int| 0 <= i < t ==> #[trigger] self@[i] == updated(v0, y2 as int, w as int, s as nat)[i],
                forall|i: int| t <= i < count ==> #[trigger] self@[i] == v0[i],
            decreases count - t,
        {
            assert(t < 0x1_0000_0000);
            let c2: i64 = (2 * t as i64 + 1) * 64;
            let d: i64 = if y2 >= c2 { y2 - c2 } else { c2 - y2 };
            assert(d == distance2(y2 as int, t as int));
            let ghost old_tiles = self.tiles@;
            let ghost prev = self@;
            if d <= 2 * HOTSPOT_RADIUS as i64 {
                let dc: i64 = if d < TILE_SIZE as i64 { TILE_SIZE as i64 } else { d };
                let g: i64 = 2 * HOTSPOT_RADIUS as i64 - dc;
                assert(0 <= g <= 136);
                assert(g * g <= 136 * 136) by (nonlinear_arith)
                    requires
                        0 <= g <= 136,
                ;
                let f0: i64 = g * g;
                let f: u64 = if f0 < 10000 { 10000 } else { f0 as u64 };
                assert(f == falloff(d as int));
                assert(f <= 40000) by (nonlinear_arith)
                    requires
                        f == falloff(d as int),
                        64 <= (if d < 64 { 64 } else { d }) <= 200,
                ;
                assert(s * f <= SCORE_CAP * 40000) by (nonlinear_arith)
                    requires
                        s <= SCORE_CAP,
                        f <= 40000,
                ;
                let c: u64 = s * f / 40000;
                assert(c == contribution(y2 as int, t as int, s as nat));
                assert(c <= s) by (nonlinear_arith)
                    requires
                        c == s * f / 40000,
                        f <= 40000,
                ;
                assert(self@[t as int] == self.tiles@[t as int]@);
                if c > self.tiles[t][w] {
                    let mut tile: Vec<u64> = Vec::new();
                    self.tiles.set_and_swap(t, &mut tile);
                    let ghost tv = tile@;
                    tile.set(w, c);
                    let ghost nt = tile;
                    self.tiles.set_and_swap(t, &mut tile);
                    proof {
                        assert(self.tiles@ == old_tiles.update(t as int, nt));
                        assert(nt@ == v0[t as int].update(w as int, c));
                        assert forall|i: int| 0 <= i < count implies #[trigger] self@[i] == (if i == t {
                            v0[t as int].update(w as int, c)
                        } else {
                            prev[i]
                        }) by {
                            assert(prev[i] == old_tiles[i]@);
                        }
                        assert(self.wf()) by {
                            assert forall|a: int, b: int|
                                0 <= a < self@.len() && 0 <= b < self.word_count implies (#[trigger] self@[a][b])
                                <= SCORE_CAP by {
                                if a != t {
                                    assert(self@[a] == prev[a]);
                                }
                            }
                            assert forall|a: int| 0 <= a < self@.len() implies (#[trigger] self@[a]).len()
                                == self.word_count by {
                                if a != t {
                                    assert(self@[a] == prev[a]);
                                }
                            }
                        }
                        assert forall|i: int| 0 <= i < t implies #[trigger] self@[i] == updated(
                            v0,
                            y2 as int,
                            w as int,
                            s as nat,
                        )[i] by {
                            assert(self@[i] == prev[i]);
                        }
                        assert forall|i: int| t < i < count implies #[trigger] self@[i] == v0[i] by {
                            assert(self@[i] == prev[i]);
                        }
                    }
                }
            }
            assert(self@[t as int] == updated(v0, y2 as int, w as int, s as nat)[t as int]);
            t = t + 1;
        }
        assert(self@ =~= updated(v0, y2 as int, w as int, s as nat));
    }

    /// The sum over query words of the square roots of tile `t`'s scores.
    pub fn total_score(&self, t: usize) -> (r: u64)
        requires
            self.wf(),
            t < self@.len(),
        ensures
            r == tile_total(self@[t as int]),
    {
        let n = self.word_count;
        let tile = &self.tiles[t];
        assert(tile@ == self@[t as int]);
        let mut sum: u64 = 0;
        let mut w: usize = 0;
        while w < tile.len()
            invariant
                tile@ == self@[t as int],
                tile@.len() == n,
                n <= 0x1_0000,
                self.wf(),
                n == self.word_count,
                t < self@.len(),
                w <= n,
                sum == tile_total(tile@.subrange(0, w as int)),
                sum <= w * 0x1_0000_0000,
            decreases n - w,
        {
            assert(tile@.subrange(0, w + 1).drop_last() =~= tile@.subrange(0, w as int));
            assert(tile@[w as int] <= SCORE_CAP);
            let q = int_sqrt(tile[w]);
            proof {
                lemma_isqrt_monotone(tile@[w as int] as nat, SCORE_CAP as nat);
                assert(SCORE_CAP == 1099511627776);
                assert(1048576 * 1048576 <= 1099511627776 < 1048577 * 1048577) by (nonlinear_arith);
                lemma_isqrt_unique(SCORE_CAP as nat, 1048576);
            }
            sum = sum + q;
            w = w + 1;
        }
        assert(tile@.subrange(0, w as int) =~= tile@);
        sum
    }

    /// The best tile total of the page.
    pub fn maximum_score(&self) -> (r: u64)
        requires
            self.wf(),
        ensures
            r == max_total(self@),
    {
        let mut best: u64 = 0;
        let mut t: usize = 0;
        while t < self.tiles.len()
            invariant
                self.wf(),
                t <= self@.len(),
                self@.len() == self.tiles@.len(),
                best == max_total(self@.subrange(0, t as int)),
            decreases self@.len() - t,
        {
            assert(self@.subrange(0, t + 1).drop_last() =~= self@.subrange(0, t as int));
            let v = self.total_score(t);
            if v > best {
                best = v;
            }
            t = t + 1;
        }
        assert(self@.subrange(0, t as int) =~= self@);
        best
    }
}

/// Every tile holds `n` scores.
pub open spec fn has_shape(tiles: Seq<Seq<u64>>, n: nat) -> bool {
    forall|t: int| 0 <= t < tiles.len() ==> (#[trigger] tiles[t]).len() == n
}

/// `a` has the shape of `b` and each of its scores is at least that of `b`.
pub open spec fn dominates(a: Seq<Seq<u64>>, b: Seq<Seq<u64>>) -> bool {
    &&& a.len() == b.len()
    &&& forall|t: int| 0 <= t < a.len() ==> (#[trigger] a[t]).len() == b[t].len()
    &&& forall|t: int, w: int| 0 <= t < a.len() && 0 <= w < a[t].len() ==> (#[trigger] a[t][w]) >= b[t][w]
}

/// The tiles after matches `(doubled height, query word, score)`, in order.
pub open spec fn apply_all(tiles: Seq<Seq<u64>>, us: Seq<(int, int, nat)>) -> Seq<Seq<u64>>
    decreases us.len(),
{
    if us.len() == 0 {
        tiles
    } else {
        updated(apply_all(tiles, us.drop_last()), us.last().0, us.last().1, us.last().2)
    }
}

/// Matches whose words are within `n` and whose scores are within `SCORE_CAP`.
pub open spec fn matches_fit(us: Seq<(int, int, nat)>, n: nat) -> bool {
    forall|i: int| 0 <= i < us.len() ==> 0 <= (#[trigger] us[i]).1 < n && us[i].2 <= SCORE_CAP
}

proof fn lemma_contribution_le(y2: int, t: int, s: nat)
    ensures
        contribution(y2, t, s) <= s,
{
    let f = falloff(distance2(y2, t));
    assert(0 < f <= 40000) by (nonlinear_arith)
        requires
            f == falloff(distance2(y2, t)),
    {
        let d = distance2(y2, t);
        let dc = if d < TILE_SIZE { TILE_SIZE as int } else { d };
        let g = if dc >= 2 * HOTSPOT_RADIUS { 0 } else { 2 * HOTSPOT_RADIUS - dc };
        assert(0 <= g <= 136);
    }
    assert(s * f / 40000 <= s) by (nonlinear_arith)
        requires
            0 < f <= 40000,
    ;
}

proof fn lemma_contribution_monotone(y2: int, t: int, sa: nat, sb: nat)
    requires
        sa >= sb,
    ensures
        contribution(y2, t, sa) >= contribution(y2, t, sb),
{
    let f = falloff(distance2(y2, t));
    assert(f > 0);
    assert(sa * f / 40000 >= sb * f / 40000) by (nonlinear_arith)
        requires
            sa >= sb,
            f > 0,
    ;
}

proof fn lemma_updated_shape(a: Seq<Seq<u64>>, y2: int, w: int, s: nat, n: nat)
    requires
        has_shape(a, n),
        0 <= w < n,
    ensures
        has_shape(updated(a, y2, w, s), n),
        updated(a, y2, w, s).len() == a.len(),
{
}

proof fn lemma_updated_grows(a: Seq<Seq<u64>>, y2: int, w: int, s: nat, n: nat)
    requires
        has_shape(a, n),
        0 <= w < n,
        s <= SCORE_CAP,
    ensures
        dominates(updated(a, y2, w, s), a),
{
    let u = updated(a, y2, w, s);
    assert forall|t: int, v: int| 0 <= t < u.len() && 0 <= v < u[t].len() implies (#[trigger] u[t][v]) >= a[t][v] by {
        lemma_contribution_le(y2, t, s);
    }
}

proof fn lemma_updated_monotone(a: Seq<Seq<u64>>, b: Seq<Seq<u64>>, y2: int, w: int, sa: nat, sb: nat, n: nat)
    requires
        has_shape(a, n),
        has_shape(b, n),
        dominates(a, b),
        0 <= w < n,
        sb <= sa <= SCORE_CAP,
    ensures
        dominates(updated(a, y2, w, sa), updated(b, y2, w, sb)),
{
    let ua = updated(a, y2, w, sa);
    let ub = updated(b, y2, w, sb);
    assert forall|t: int, v: int| 0 <= t < ua.len() && 0 <= v < ua[t].len() implies (#[trigger] ua[t][v]) >= ub[t][v] by {
        lemma_contribution_le(y2, t, sa);
        lemma_contribution_le(y2, t, sb);
        lemma_contribution_monotone(y2, t, sa, sb);
        assert(a[t][v] >= b[t][v]);
    }
}

proof fn lemma_dominates_transitive(a: Seq<Seq<u64>>, b: Seq<Seq<u64>>, c: Seq<Seq<u64>>)
    requires
        dominates(a, b),
        dominates(b, c),
    ensures
        dominates(a, c),
{
    assert forall|t: int, w: int| 0 <= t < a.len() && 0 <= w < a[t].len() implies (#[trigger] a[t][w]) >= c[t][w] by {
        assert(a[t][w] >= b[t][w]);
        assert(b[t][w] >= c[t][w]);
    }
}

proof fn lemma_apply_all_shape(base: Seq<Seq<u64>>, us: Seq<(int, int, nat)>, n: nat)
    requires
        has_shape(base, n),
        matches_fit(us, n),
    ensures
        has_shape(apply_all(base, us), n),
        apply_all(base, us).len() == base.len(),
    decreases us.len(),
{
    if us.len() > 0 {
        let init = us.drop_last();
        assert(matches_fit(init, n)) by {
            assert forall|i: int| 0 <= i < init.len() implies 0 <= (#[trigger] init[i]).1 < n && init[i].2 <= SCORE_CAP by {
                assert(init[i] == us[i]);
            }
        }
        lemma_apply_all_shape(base, init, n);
        assert(us[us.len() - 1] == us.last());
        lemma_updated_shape(apply_all(base, init), us.last().0, us.last().1, us.last().2, n);
    }
}

proof fn lemma_tile_total_monotone(a: Seq<u64>, b: Seq<u64>)
    requires
        a.len() == b.len(),
        forall|w: int| 0 <= w < a.len() ==> (#[trigger] a[w]) >= b[w],
    ensures
        tile_total(a) >= tile_total(b),
    decreases a.len(),
{
    if a.len() > 0 {
        lemma_tile_total_monotone(a.drop_last(), b.drop_last());
        lemma_isqrt_monotone(b.last() as nat, a.last() as nat);
    }
}

proof fn lemma_max_total_monotone(a: Seq<Seq<u64>>, b: Seq<Seq<u64>>)
    requires
        dominates(a, b),
    ensures
        max_total(a) >= max_total(b),
    decreases a.len(),
{
    if a.len() > 0 {
        let ai = a.drop_last();
        let bi = b.drop_last();
        assert(dominates(ai, bi)) by {
            assert forall|t: int, w: int| 0 <= t < ai.len() && 0 <= w < ai[t].len() implies (#[trigger] ai[t][w]) >= bi[t][w] by {
                assert(a[t][w] >= b[t][w]);
            }
        }
        lemma_max_total_monotone(ai, bi);
        let l = a.len() - 1;
        assert forall|w: int| 0 <= w < a.last().len() implies (#[trigger] a.last()[w]) >= b.last()[w] by {
            assert(a[l][w] >= b[l][w]);
        }
        lemma_tile_total_monotone(a.last(), b.last());
    }
}

/// Ranking is monotone: a page whose matches for the query are those of an
/// otherwise identical page, each scoring at least as much, followed by any
/// further matches, has a relevance score at least as high.
pub proof fn lemma_ranking_monotone(base: Seq<Seq<u64>>, us: Seq<(int, int, nat)>, vs: Seq<(int, int, nat)>, n: nat)
    requires
        has_shape(base, n),
        matches_fit(us, n),
        matches_fit(vs, n),
        us.len() <= vs.len(),
        forall|i: int|
            0 <= i < us.len() ==> (#[trigger] vs[i]).0 == us[i].0 && vs[i].1 == us[i].1 && vs[i].2 >= us[i].2,
    ensures
        max_total(apply_all(base, vs)) >= max_total(apply_all(base, us)),
    decreases vs.len(),
{
    lemma_apply_all_shape(base, us, n);
    lemma_apply_all_shape(base, vs, n);
    lemma_apply_all_dominates(base, us, vs, n);
    lemma_max_total_monotone(apply_all(base, vs), apply_all(base, us));
}

proof fn lemma_apply_all_dominates(base: Seq<Seq<u64>>, us: Seq<(int, int, nat)>, vs: Seq<(int, int, nat)>, n: nat)
    requires
        has_shape(base, n),
        matches_fit(us, n),
        matches_fit(vs, n),
        us.len() <= vs.len(),
        forall|i: int|
            0 <= i < us.len() ==> (#[trigger] vs[i]).0 == us[i].0 && vs[i].1 == us[i].1 && vs[i].2 >= us[i].2,
    ensures
        dominates(apply_all(base, vs), apply_all(base, us)),
    decreases vs.len(),
{
    lemma_apply_all_shape(base, vs, n);
    if vs.len() == 0 {
        assert(us.len() == 0);
        assert(dominates(base, base)) by {
            assert forall|t: int, w: int| 0 <= t < base.len() && 0 <= w < base[t].len() implies (#[trigger] base[t][w])
                >= base[t][w] by {}
        }
    } else {
        let vi = vs.drop_last();
        let x = vs.last();
        assert(vs[vs.len() - 1] == x);
        assert(matches_fit(vi, n)) by {
            assert forall|i: int| 0 <= i < vi.len() implies 0 <= (#[trigger] vi[i]).1 < n && vi[i].2 <= SCORE_CAP by {
                assert(vi[i] == vs[i]);
            }
        }
        lemma_apply_all_shape(base, vi, n);
        if us.len() == vs.len() {
            let ui = us.drop_last();
            assert(matches_fit(ui, n)) by {
                assert forall|i: int| 0 <= i < ui.len() implies 0 <= (#[trigger] ui[i]).1 < n && ui[i].2 <= SCORE_CAP by {
                    assert(ui[i] == us[i]);
                }
            }
            assert forall|i: int| 0 <= i < ui.len() implies (#[trigger] vi[i]).0 == ui[i].0 && vi[i].1 == ui[i].1
                && vi[i].2 >= ui[i].2 by {
                assert(vi[i] == vs[i] && ui[i] == us[i]);
            }
            lemma_apply_all_dominates(base, ui, vi, n);
            lemma_apply_all_shape(base, ui, n);
            let y = us.last();
            assert(us[us.len() - 1] == y);
            lemma_updated_monotone(apply_all(base, vi), apply_all(base, ui), x.0, x.1, x.2, y.2, n);
        } else {
            assert forall|i: int| 0 <= i < us.len() implies (#[trigger] vi[i]).0 == us[i].0 && vi[i].1 == us[i].1
                && vi[i].2 >= us[i].2 by {
                assert(vi[i] == vs[i]);
            }
            lemma_apply_all_dominates(base, us, vi, n);
            lemma_updated_grows(apply_all(base, vi), x.0, x.1, x.2, n);
            lemma_dominates_transitive(apply_all(base, vs), apply_all(base, vi), apply_all(base, us));
        }
    }
}

} // verus!
