use vstd::prelude::*;

verus! {

/// Number of feature units in 1.0: features are fixed-point values in millionths.
pub const SCALE: u32 = 1_000_000;

/// A point in feature space: energy, acousticness and valence, in millionths.
#[derive(Clone, Copy, Debug, PartialEq, Eq, Structural)]
pub struct Point {
    pub energy: u32,
    pub acoust: u32,
    pub valence: u32,
}

/// One coordinate of a point: 0 is energy, 1 acousticness, 2 valence.
pub open spec fn coord(p: Point, d: nat) -> nat {
    if d == 0 {
        p.energy as nat
    } else if d == 1 {
        p.acoust as nat
    } else {
        p.valence as nat
    }
}

/// Square of the Euclidean distance between two points.
pub open spec fn sq_dist(a: Point, b: Point) -> nat {
    let de = a.energy as int - b.energy as int;
    let da = a.acoust as int - b.acoust as int;
    let dv = a.valence as int - b.valence as int;
    (de * de + da * da + dv * dv) as nat
}

/// `r` is the Euclidean norm whose square is `s`, rounded down to a whole unit.
pub open spec fn is_floor_sqrt(r: nat, s: nat) -> bool {
    r * r <= s && s < (r + 1) * (r + 1)
}

/// A song: its title, its features and its release year.
#[derive(Clone, Debug)]
pub struct Song {
    pub name: String,
    pub energy: u32,
    pub acoust: u32,
    pub valence: u32,
    pub year: u32,
}

/// What a song is, as a value.
pub struct SongView {
    pub name: Seq<char>,
    pub point: Point,
    pub year: u32,
}

impl View for Song {
    type V = SongView;

    open spec fn view(&self) -> SongView {
        SongView { name: self.name@, point: self.spec_point(), year: self.year }
    }
}

impl Song {
    pub open spec fn spec_point(&self) -> Point {
        Point { energy: self.energy, acoust: self.acoust, valence: self.valence }
    }

    /// The song's feature triple.
    pub fn point(&self) -> (r: Point)
        ensures
            r == self.spec_point(),
    {
        Point { energy: self.energy, acoust: self.acoust, valence: self.valence }
    }

    /// A copy of the song.
    pub fn copied(&self) -> (r: Song)
        ensures
            r@ == self@,
    {
        Song {
            name: self.name.clone(),
            energy: self.energy,
            acoust: self.acoust,
            valence: self.valence,
            year: self.year,
        }
    }

    /// Whether two songs are the same value: title, features and year.
    pub fn same_as(&self, other: &Song) -> (r: bool)
        ensures
            r == (self@ == other@),
    {
        let same_name = self.name == other.name;
        same_name && self.energy == other.energy && self.acoust == other.acoust
            && self.valence == other.valence && self.year == other.year
    }

    /// Divergence between two songs: the Euclidean distance of their features,
    /// rounded down to a whole feature unit. Larger means more different.
    pub fn similarity(&self, other: &Song) -> (r: u64)
        ensures
            is_floor_sqrt(r as nat, sq_dist(self.spec_point(), other.spec_point())),
    {
        floor_sqrt(squared_divergence(&self.point(), &other.point()))
    }
}

fn abs_diff(a: u32, b: u32) -> (r: u64)
    ensures
        r as int == if a >= b { a - b } else { b - a },
{
    if a >= b {
        (a - b) as u64
    } else {
        (b - a) as u64
    }
}

/// Square of the Euclidean distance between two points, exactly.
pub fn squared_divergence(a: &Point, b: &Point) -> (r: u128)
    ensures
        r as nat == sq_dist(*a, *b),
        r < 0x3_0000_0000_0000_0000_u128,
{
    let de = abs_diff(a.energy, b.energy);
    let da = abs_diff(a.acoust, b.acoust);
    let dv = abs_diff(a.valence, b.valence);
    assert(de * de <= 0xffff_ffff_u64 * 0xffff_ffff_u64) by (nonlinear_arith)
        requires de <= 0xffff_ffff_u64;
    assert(da * da <= 0xffff_ffff_u64 * 0xffff_ffff_u64) by (nonlinear_arith)
        requires da <= 0xffff_ffff_u64;
    assert(dv * dv <= 0xffff_ffff_u64 * 0xffff_ffff_u64) by (nonlinear_arith)
        requires dv <= 0xffff_ffff_u64;
    let se = (de as u128) * (de as u128);
    let sa = (da as u128) * (da as u128);
    let sv = (dv as u128) * (dv as u128);
    proof {
        let ie = a.energy as int - b.energy as int;
        let ia = a.acoust as int - b.acoust as int;
        let iv = a.valence as int - b.valence as int;
        assert(de * de == ie * ie) by (nonlinear_arith)
            requires de == ie || de == -ie;
        assert(da * da == ia * ia) by (nonlinear_arith)
            requires da == ia || da == -ia;
        assert(dv * dv == iv * iv) by (nonlinear_arith)
            requires dv == iv || dv == -iv;
    }
    se + sa + sv
}

/// The largest `r` with `r * r <= s`, for any `s` that a squared divergence can take.
pub fn floor_sqrt(s: u128) -> (r: u64)
    requires
        s < 0x4_0000_0000_0000_0000_u128,
    ensures
        is_floor_sqrt(r as nat, s as nat),
{
    let mut lo: u64 = 0;
    let mut hi: u64 = 0x2_0000_0000;
    assert(hi as nat * hi as nat > s) by (nonlinear_arith)
        requires hi == 0x2_0000_0000_u64, s < 0x4_0000_0000_0000_0000_u128;
    while hi - lo > 1
        invariant
            lo < hi,
            hi <= 0x2_0000_0000,
            lo as nat * lo as nat <= s,
            s < hi as nat * hi as nat,
        decreases hi - lo,
    {
        let mid: u64 = lo + (hi - lo) / 2;
        assert(mid as nat * mid as nat <= 0x4_0000_0000_0000_0000) by (nonlinear_arith)
            requires mid <= 0x2_0000_0000_u64;
        let m2: u128 = (mid as u128) * (mid as u128);
        if m2 <= s {
            lo = mid;
        } else {
            hi = mid;
        }
    }
    assert(hi == lo + 1);
    lo
}

/// The divergence of an entity from itself is zero, and divergence is symmetric.
pub proof fn lemma_divergence_symmetric(a: Point, b: Point)
    ensures
        sq_dist(a, a) == 0,
        sq_dist(a, b) == sq_dist(b, a),
        forall|r: nat| is_floor_sqrt(r, sq_dist(a, a)) ==> r == 0,
        forall|r: nat, q: nat|
            is_floor_sqrt(r, sq_dist(a, b)) && is_floor_sqrt(q, sq_dist(b, a)) ==> r == q,
{
    let de = a.energy as int - b.energy as int;
    let da = a.acoust as int - b.acoust as int;
    let dv = a.valence as int - b.valence as int;
    assert((-de) * (-de) == de * de) by (nonlinear_arith);
    assert((-da) * (-da) == da * da) by (nonlinear_arith);
    assert((-dv) * (-dv) == dv * dv) by (nonlinear_arith);
    assert forall|r: nat| is_floor_sqrt(r, sq_dist(a, a)) implies r == 0 by {
        if r > 0 {
            assert(r * r >= 1) by (nonlinear_arith)
                requires r > 0;
        }
    }
    assert forall|r: nat, q: nat|
        is_floor_sqrt(r, sq_dist(a, b)) && is_floor_sqrt(q, sq_dist(b, a)) implies r == q by {
        lemma_floor_sqrt_unique(r, q, sq_dist(a, b));
    }
}

/// The rounded-down norm of a square is unique.
pub proof fn lemma_floor_sqrt_unique(r: nat, q: nat, s: nat)
    requires
        is_floor_sqrt(r, s),
        is_floor_sqrt(q, s),
    ensures
        r == q,
{
    if r < q {
        assert((r + 1) * (r + 1) <= q * q) by (nonlinear_arith)
            requires r + 1 <= q;
    } else if q < r {
        assert((q + 1) * (q + 1) <= r * r) by (nonlinear_arith)
            requires q + 1 <= r;
    }
}

} // verus!
