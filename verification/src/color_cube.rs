use vstd::arithmetic::div_mod::lemma_div_is_ordered;
use vstd::arithmetic::div_mod::lemma_div_multiples_vanish;
use vstd::arithmetic::div_mod::lemma_div_pos_is_pos;
use vstd::arithmetic::div_mod::lemma_fundamental_div_mod;
use vstd::arithmetic::div_mod::lemma_mod_bound;
use vstd::arithmetic::div_mod::lemma_multiply_divide_lt;
use vstd::arithmetic::mul::lemma_mul_inequality;
use vstd::prelude::*;

use crate::color::Color;
use crate::dither::ConfigurationError;
use crate::quantize::Quantizer;

verus! {

/// How many distinct palette colors the centroid map can carry; a palette
/// that maps lattice samples to more colors than this fails the build with
/// a configuration error.
pub const CENTER_CAPACITY: usize = 64;

/// A color type the lattice can hold: a plain value with a decidable
/// equality test.
pub trait LatticeColor: Sized + Copy {
    /// Whether two palette colors are the same value.
    fn eq_color(&self, other: &Self) -> (r: bool)
        ensures
            r <==> (*self == *other),
    ;
}

impl LatticeColor for Color {
    fn eq_color(&self, other: &Self) -> (r: bool) {
        *self == *other
    }
}

/// Whether `lat` is a full lattice sweep of the membership function `f`:
/// one cell per sample point, each holding a value `f` can return for that
/// sample.
pub open spec fn sampled_lattice<C, F: Fn(u8, u8, u8) -> C>(f: F, lat: Seq<C>, n: int) -> bool {
    &&& lat.len() == n * n * n
    &&& forall|j: int|
        0 <= j < lat.len() ==> call_ensures(
            f,
            (
                sample8(coord(j, n, 0), n) as u8,
                sample8(coord(j, n, 1), n) as u8,
                sample8(coord(j, n, 2), n) as u8,
            ),
            #[trigger] lat[j],
        )
}

/// The spacing between lattice sample coordinates on one channel.
pub open spec fn step8(n: int) -> int {
    255int / (n - 1)
}

/// The 8-bit channel value of the lattice sample with index `i`.
pub open spec fn sample8(i: int, n: int) -> int {
    step8(n) * i
}

/// One lattice coordinate of the flat cell index `j`: channel 0 is the
/// red axis, 1 the green axis, 2 the blue axis.
pub open spec fn coord(j: int, n: int, ch: int) -> int {
    if ch == 0 {
        j / (n * n)
    } else if ch == 1 {
        (j / n) % n
    } else {
        j % n
    }
}

/// The flat cell index of lattice coordinates (r, g, b).
pub open spec fn flat(r: int, g: int, b: int, n: int) -> int {
    (r * n + g) * n + b
}

/// How many of the first `m` lattice cells hold color `c`.
pub open spec fn count_color<C>(lat: Seq<C>, c: C, m: int) -> int
    decreases m,
{
    if m <= 0 {
        0
    } else {
        count_color(lat, c, m - 1) + if lat[m - 1] == c {
            1int
        } else {
            0int
        }
    }
}

/// The sum, over the first `m` lattice cells holding color `c`, of the
/// cells' sampled channel values.
pub open spec fn sum_chan<C>(lat: Seq<C>, c: C, m: int, n: int, ch: int) -> int
    decreases m,
{
    if m <= 0 {
        0
    } else {
        sum_chan(lat, c, m - 1, n, ch) + if lat[m - 1] == c {
            sample8(coord(m - 1, n, ch), n)
        } else {
            0int
        }
    }
}

/// How many distinct colors appear among the first `m` lattice cells.
pub open spec fn distinct_upto<C>(lat: Seq<C>, m: int) -> int
    decreases m,
{
    if m <= 0 {
        0
    } else {
        distinct_upto(lat, m - 1) + if exists|i: int| 0 <= i < m - 1 && #[trigger] lat[i] == lat[m - 1] {
            0int
        } else {
            1int
        }
    }
}

/// An entry of the centroid map: a palette color, its centroid channel
/// values, and how many lattice cells mapped to it.
pub type CenterEntry<C> = (C, (u64, u64, u64), usize);

/// Whether the map holds an entry for color `c`.
pub open spec fn has_center<C>(centers: Seq<CenterEntry<C>>, c: C) -> bool {
    exists|k: int| 0 <= k < centers.len() && (#[trigger] centers[k]).0 == c
}

/// The finished centroid map: one entry per distinct lattice color, whose
/// centroid is the average of the samples that mapped to it.
pub open spec fn centers_ok<C>(lat: Seq<C>, centers: Seq<CenterEntry<C>>, n: int) -> bool {
    let m = lat.len() as int;
    &&& forall|k: int|
        0 <= k < centers.len() ==> {
            let e = #[trigger] centers[k];
            &&& e.2 as int == count_color(lat, e.0, m)
            &&& e.2 > 0
            &&& e.1.0 as int == sum_chan(lat, e.0, m, n, 0) / e.2 as int
            &&& e.1.1 as int == sum_chan(lat, e.0, m, n, 1) / e.2 as int
            &&& e.1.2 as int == sum_chan(lat, e.0, m, n, 2) / e.2 as int
            &&& e.1.0 <= 255
            &&& e.1.1 <= 255
            &&& e.1.2 <= 255
        }
    &&& forall|p: int, q: int|
        0 <= p < q < centers.len() ==> (#[trigger] centers[p]).0 != (#[trigger] centers[q]).0
    &&& forall|j: int| 0 <= j < m ==> has_center(centers, #[trigger] lat[j])
}

/// The neighbour sweep: the first `t` of the 27 surrounding cells, kept in
/// sweep order when their coordinates stay on the lattice, capped at 26
/// values.
pub open spec fn neighbour_seq<C>(
    lat: Seq<C>,
    n: int,
    r: int,
    g: int,
    b: int,
    t: int,
) -> Seq<C>
    decreases t,
{
    if t <= 0 {
        Seq::empty()
    } else {
        let s = neighbour_seq(lat, n, r, g, b, t - 1);
        let i = (t - 1) / 9 - 1;
        let j = ((t - 1) / 3) % 3 - 1;
        let k = (t - 1) % 3 - 1;
        if 0 <= r + i < n && 0 <= g + j < n && 0 <= b + k < n && s.len() < 26 {
            s.push(lat[flat(r + i, g + j, b + k, n)])
        } else {
            s
        }
    }
}

/// A precomputed lattice mapping any RGB color to a palette color in O(1),
/// together with a centroid per palette color used to compute quantization
/// error without a search over the palette.
///
/// The lattice has `N` cells per channel; `N` must be at least 2 and
/// divide 256, so that channel values split evenly into cells.
pub struct ColorCube<C: LatticeColor, const N: usize> {
    lattice: Vec<C>,
    centers: Vec<CenterEntry<C>>,
}

/// A lattice resolution of at least 2 that divides 256 is itself at
/// most 256.
proof fn lemma_n_bound(n: int)
    requires
        n >= 2,
        256int % n == 0,
    ensures
        n <= 256,
{
    if n > 256 {
        vstd::arithmetic::div_mod::lemma_small_mod(256, n as nat);
    }
}

/// Lattice coordinates of a valid flat index stay on the lattice.
proof fn lemma_coord_bounds(j: int, n: int)
    requires
        n >= 2,
        0 <= j < n * n * n,
    ensures
        0 <= coord(j, n, 0) < n,
        0 <= coord(j, n, 1) < n,
        0 <= coord(j, n, 2) < n,
{
    lemma_div_pos_is_pos(j, n * n);
    lemma_multiply_divide_lt(j, n * n, n);
    lemma_div_pos_is_pos(j, n);
    lemma_mod_bound(j / n, n);
    lemma_mod_bound(j, n);
}

/// A lattice sample's channel value fits in 8 bits.
proof fn lemma_sample_bound(i: int, n: int)
    requires
        n >= 2,
        0 <= i < n,
    ensures
        0 <= sample8(i, n) <= 255,
{
    lemma_div_pos_is_pos(255, n - 1);
    lemma_fundamental_div_mod(255, n - 1);
    lemma_mod_bound(255, n - 1);
    lemma_mul_inequality(i, n - 1, step8(n));
    assert(sample8(i, n) == step8(n) * i) by {
        vstd::arithmetic::mul::lemma_mul_is_commutative(step8(n), i);
    }
    assert(step8(n) * (n - 1) <= 255) by {
        vstd::arithmetic::mul::lemma_mul_is_commutative(step8(n), n - 1);
    }
}

/// A color occurs among the first `m` cells exactly when its count there
/// is positive; counts never exceed `m`.
proof fn lemma_count_occurrence<C>(lat: Seq<C>, c: C, m: int)
    requires
        m >= 0,
    ensures
        0 <= count_color(lat, c, m) <= m,
        count_color(lat, c, m) == 0 <==> forall|i: int| 0 <= i < m ==> lat[i] != c,
    decreases m,
{
    if m > 0 {
        lemma_count_occurrence(lat, c, m - 1);
    }
}

/// A color with no occurrence among the first `m` cells sums to zero.
proof fn lemma_sum_zero<C>(lat: Seq<C>, c: C, m: int, n: int, ch: int)
    requires
        m >= 0,
        forall|i: int| 0 <= i < m ==> lat[i] != c,
    ensures
        sum_chan(lat, c, m, n, ch) == 0,
    decreases m,
{
    if m > 0 {
        lemma_sum_zero(lat, c, m - 1, n, ch);
    }
}

/// Channel sums stay between 0 and 255 times the matching count.
proof fn lemma_sum_le_count<C>(lat: Seq<C>, c: C, m: int, n: int, ch: int)
    requires
        n >= 2,
        0 <= m <= n * n * n,
    ensures
        0 <= sum_chan(lat, c, m, n, ch) <= 255 * count_color(lat, c, m),
    decreases m,
{
    if m > 0 {
        lemma_sum_le_count(lat, c, m - 1, n, ch);
        lemma_count_occurrence(lat, c, m - 1);
        lemma_coord_bounds(m - 1, n);
        lemma_sample_bound(coord(m - 1, n, ch), n);
        assert(255 * count_color(lat, c, m) == 255 * count_color(lat, c, m - 1) + 255 * (
        count_color(lat, c, m) - count_color(lat, c, m - 1))) by {
            vstd::arithmetic::mul::lemma_mul_is_distributive_add(
                255,
                count_color(lat, c, m - 1),
                count_color(lat, c, m) - count_color(lat, c, m - 1),
            );
        }
    }
}

/// Seeing more cells never lowers the number of distinct colors.
proof fn lemma_distinct_monotonic<C>(lat: Seq<C>, m1: int, m2: int)
    requires
        0 <= m1 <= m2,
    ensures
        distinct_upto(lat, m1) <= distinct_upto(lat, m2),
    decreases m2 - m1,
{
    if m1 < m2 {
        lemma_distinct_monotonic(lat, m1, m2 - 1);
        lemma_distinct_nonnegative(lat, m2 - 1);
    }
}

proof fn lemma_distinct_nonnegative<C>(lat: Seq<C>, m: int)
    requires
        m >= 0,
    ensures
        distinct_upto(lat, m) >= 0,
    decreases m,
{
    if m > 0 {
        lemma_distinct_nonnegative(lat, m - 1);
    }
}

impl<C: LatticeColor, const N: usize> ColorCube<C, N> {
    /// The lattice contents, flat, cell (r, g, b) at index `flat(r, g, b)`.
    pub closed spec fn lattice_view(self) -> Seq<C> {
        self.lattice@
    }

    /// The finished centroid map.
    pub closed spec fn centers_view(self) -> Seq<CenterEntry<C>> {
        self.centers@
    }

    pub open spec fn n_valid() -> bool {
        N >= 2 && 256int % (N as int) == 0
    }

    pub open spec fn wf(self) -> bool {
        &&& Self::n_valid()
        &&& self.lattice_view().len() == (N as int) * (N as int) * (N as int)
        &&& centers_ok(self.lattice_view(), self.centers_view(), N as int)
    }

    /// The palette color of the lattice cell that `c` falls in: each
    /// channel is divided by the cell width and the cube indexed directly.
    pub closed spec fn lookup_view(self, c: Color) -> C {
        let cell = 256int / (N as int);
        self.lattice@[flat(
            c.r as int / cell,
            c.g as int / cell,
            c.b as int / cell,
            N as int,
        )]
    }

    /// Exposes one lattice cell.
    pub fn lattice_at(&self, r: usize, g: usize, b: usize) -> (c: C)
        requires
            self.wf(),
            r < N,
            g < N,
            b < N,
        ensures
            c == self.lattice_view()[flat(r as int, g as int, b as int, N as int)],
    {
        proof {
            lemma_n_bound(N as int);
            lemma_flat_bound(r as int, g as int, b as int, N as int);
            assert((r as int) * (N as int) + (g as int) < 65536) by (nonlinear_arith)
                requires
                    2 <= (N as int) <= 256,
                    (r as int) < (N as int),
                    (g as int) < (N as int),
            ;
            assert(((r as int) * (N as int) + (g as int)) * (N as int) + (b as int) < 16777216)
                by (nonlinear_arith)
                requires
                    2 <= (N as int) <= 256,
                    (r as int) < (N as int),
                    (g as int) < (N as int),
                    (b as int) < (N as int),
            ;
        }
        self.lattice[(r * N + g) * N + b]
    }

    fn sample_value(i: usize) -> (r: u8)
        requires
            Self::n_valid(),
            i < N,
        ensures
            r as int == sample8(i as int, N as int),
    {
        proof {
            lemma_sample_bound(i as int, N as int);
        }
        let step = 255 / (N - 1);
        (step * i) as u8
    }

    /// Builds the cube: samples the membership function over an N-cubed
    /// lattice spanning the full channel range, then computes each palette
    /// color's centroid. Fails with a configuration error if the palette
    /// maps the lattice to more distinct colors than the centroid map can
    /// carry.
    #[verifier::loop_isolation(false)]
    pub fn from<F: Fn(u8, u8, u8) -> C>(f: &F) -> (r: Result<ColorCube<C, N>, ConfigurationError>)
        requires
            Self::n_valid(),
            forall|a: u8, b: u8, c: u8| call_requires(*f, (a, b, c)),
        ensures
            r is Err ==> r == Result::<ColorCube<C, N>, ConfigurationError>::Err(
                ConfigurationError::PaletteTooLarge,
            ) && exists|lat: Seq<C>|
                #[trigger] sampled_lattice(*f, lat, N as int) && distinct_upto(
                    lat,
                    lat.len() as int,
                ) > CENTER_CAPACITY as int,
            r is Ok ==> r->Ok_0.wf() && r->Ok_0.inv() && sampled_lattice(
                *f,
                r->Ok_0.lattice_view(),
                N as int,
            ) && distinct_upto(
                r->Ok_0.lattice_view(),
                r->Ok_0.lattice_view().len() as int,
            ) <= CENTER_CAPACITY as int,
    {
        proof {
            lemma_n_bound(N as int);
            assert((N as int) * (N as int) <= 65536) by (nonlinear_arith)
                requires
                    2 <= (N as int) <= 256,
            ;
            assert((N as int) * (N as int) * (N as int) <= 16777216) by (nonlinear_arith)
                requires
                    2 <= (N as int) <= 256,
            ;
        }
        let n3: usize = N * N * N;
        let mut lattice: Vec<C> = Vec::new();
        let mut j: usize = 0;
        while j < n3
            invariant
                Self::n_valid(),
                N <= 256,
                n3 == (N as int) * (N as int) * (N as int),
                n3 <= 16777216,
                j <= n3,
                lattice@.len() == j,
                forall|a: u8, b: u8, c: u8| call_requires(*f, (a, b, c)),
                forall|i: int|
                    0 <= i < j ==> call_ensures(
                        *f,
                        (
                            sample8(coord(i, N as int, 0), N as int) as u8,
                            sample8(coord(i, N as int, 1), N as int) as u8,
                            sample8(coord(i, N as int, 2), N as int) as u8,
                        ),
                        #[trigger] lattice@[i],
                    ),
            decreases n3 - j,
        {
            proof {
                lemma_coord_bounds(j as int, N as int);
                assert((N as int) * (N as int) != 0) by (nonlinear_arith)
                    requires
                        N as int >= 2,
                ;
            }
            let r = j / (N * N);
            let g = (j / N) % N;
            let b = j % N;
            let r8 = Self::sample_value(r);
            let g8 = Self::sample_value(g);
            let b8 = Self::sample_value(b);
            let v = (*f)(r8, g8, b8);
            lattice.push(v);
            j = j + 1;
        }
        let mut cube = ColorCube { lattice, centers: Vec::new() };
        let built = cube.approximate_centers();
        proof {
            assert(sampled_lattice(*f, cube.lattice@, N as int));
        }
        match built {
            Ok(()) => Ok(cube),
            Err(e) => Err(e),
        }
    }

    /// Sweeps the lattice and computes, for every distinct palette color,
    /// the average of the sample coordinates that mapped to it. Fails with
    /// a configuration error, leaving the map half built, if the distinct
    /// colors outnumber the map's capacity.
    #[verifier::loop_isolation(false)]
    pub fn approximate_centers(&mut self) -> (r: Result<(), ConfigurationError>)
        requires
            Self::n_valid(),
            old(self).lattice_view().len() == (N as int) * (N as int) * (N as int),
        ensures
            final(self).lattice_view() == old(self).lattice_view(),
            r is Ok <==> distinct_upto(
                old(self).lattice_view(),
                old(self).lattice_view().len() as int,
            ) <= CENTER_CAPACITY as int,
            r is Ok ==> final(self).wf(),
            r is Err ==> r == Result::<(), ConfigurationError>::Err(
                ConfigurationError::PaletteTooLarge,
            ),
    {
        proof {
            lemma_n_bound(N as int);
            assert((N as int) * (N as int) <= 65536) by (nonlinear_arith)
                requires
                    2 <= (N as int) <= 256,
            ;
            assert((N as int) * (N as int) * (N as int) <= 16777216) by (nonlinear_arith)
                requires
                    2 <= (N as int) <= 256,
            ;
        }
        let ghost lat = self.lattice@;
        let ghost n = N as int;
        let ghost n3 = lat.len() as int;
        self.centers = Vec::new();
        let mut m: usize = 0;
        while m < self.lattice.len()
            invariant
                Self::n_valid(),
                N <= 256,
                self.lattice@ == lat,
                lat.len() == (N as int) * (N as int) * (N as int),
                lat.len() <= 16777216,
                m <= lat.len(),
                self.centers@.len() == distinct_upto(lat, m as int),
                self.centers@.len() <= CENTER_CAPACITY,
                forall|k: int|
                    0 <= k < self.centers@.len() ==> {
                        let e = #[trigger] self.centers@[k];
                        &&& e.2 as int == count_color(lat, e.0, m as int)
                        &&& e.2 > 0
                        &&& e.1.0 as int == sum_chan(lat, e.0, m as int, n, 0)
                        &&& e.1.1 as int == sum_chan(lat, e.0, m as int, n, 1)
                        &&& e.1.2 as int == sum_chan(lat, e.0, m as int, n, 2)
                    },
                forall|p: int, q: int|
                    0 <= p < q < self.centers@.len() ==> (#[trigger] self.centers@[p]).0 != (
                    #[trigger] self.centers@[q]).0,
                forall|j: int| 0 <= j < m ==> has_center(self.centers@, #[trigger] lat[j]),
            decreases lat.len() - m,
        {
            proof {
                lemma_coord_bounds(m as int, N as int);
                assert((N as int) * (N as int) != 0) by (nonlinear_arith)
                    requires
                        N as int >= 2,
                ;
            }
            let cr = m / (N * N);
            let cg = (m / N) % N;
            let cb = m % N;
            let r8 = Self::sample_value(cr);
            let g8 = Self::sample_value(cg);
            let b8 = Self::sample_value(cb);
            let c = self.lattice[m];
            let found = self.scan_center(&c);
            match found {
                Some(k) => {
                    let e = self.centers[k];
                    proof {
                        lemma_count_occurrence(lat, e.0, m as int);
                        lemma_sum_le_count(lat, e.0, m as int, n, 0);
                        lemma_sum_le_count(lat, e.0, m as int, n, 1);
                        lemma_sum_le_count(lat, e.0, m as int, n, 2);
                        assert(255 * count_color(lat, e.0, m as int) <= 255 * 16777216) by {
                            lemma_mul_inequality(count_color(lat, e.0, m as int), 16777216, 255);
                            vstd::arithmetic::mul::lemma_mul_is_commutative(
                                255,
                                count_color(lat, e.0, m as int),
                            );
                            vstd::arithmetic::mul::lemma_mul_is_commutative(16777216, 255);
                        }
                    }
                    let updated = (
                        e.0,
                        (e.1.0 + r8 as u64, e.1.1 + g8 as u64, e.1.2 + b8 as u64),
                        e.2 + 1,
                    );
                    let ghost cs0 = self.centers@;
                    self.centers.set(k, updated);
                    proof {
                        assert(forall|kk: int|
                            0 <= kk < cs0.len() ==> (#[trigger] self.centers@[kk]).0
                                == cs0[kk].0);
                        assert forall|j: int|
                            0 <= j < m + 1 implies has_center(
                            self.centers@,
                            #[trigger] lat[j],
                        ) by {
                            if j < m {
                                let kw = choose|kw: int|
                                    0 <= kw < cs0.len() && (#[trigger] cs0[kw]).0 == lat[j];
                                assert(self.centers@[kw].0 == lat[j]);
                            } else {
                                assert(self.centers@[k as int].0 == lat[m as int]);
                            }
                        }
                        assert(exists|i: int| 0 <= i < m && lat[i] == lat[m as int]) by {
                            lemma_count_occurrence(lat, c, m as int);
                        }
                        assert forall|kk: int| 0 <= kk < self.centers@.len() implies {
                            let e2 = #[trigger] self.centers@[kk];
                            &&& e2.2 as int == count_color(lat, e2.0, m as int + 1)
                            &&& e2.2 > 0
                            &&& e2.1.0 as int == sum_chan(lat, e2.0, m as int + 1, n, 0)
                            &&& e2.1.1 as int == sum_chan(lat, e2.0, m as int + 1, n, 1)
                            &&& e2.1.2 as int == sum_chan(lat, e2.0, m as int + 1, n, 2)
                        } by {
                            let e2 = self.centers@[kk];
                            assert(count_color(lat, e2.0, m as int + 1) == count_color(
                                lat,
                                e2.0,
                                m as int,
                            ) + if lat[m as int] == e2.0 {
                                1int
                            } else {
                                0int
                            });
                            assert(sum_chan(lat, e2.0, m as int + 1, n, 0) == sum_chan(
                                lat,
                                e2.0,
                                m as int,
                                n,
                                0,
                            ) + if lat[m as int] == e2.0 {
                                sample8(coord(m as int, n, 0), n)
                            } else {
                                0int
                            });
                            assert(sum_chan(lat, e2.0, m as int + 1, n, 1) == sum_chan(
                                lat,
                                e2.0,
                                m as int,
                                n,
                                1,
                            ) + if lat[m as int] == e2.0 {
                                sample8(coord(m as int, n, 1), n)
                            } else {
                                0int
                            });
                            assert(sum_chan(lat, e2.0, m as int + 1, n, 2) == sum_chan(
                                lat,
                                e2.0,
                                m as int,
                                n,
                                2,
                            ) + if lat[m as int] == e2.0 {
                                sample8(coord(m as int, n, 2), n)
                            } else {
                                0int
                            });
                            if kk != k as int {
                                assert(cs0[kk].0 != cs0[k as int].0);
                                assert(e2.0 != lat[m as int]);
                            }
                        }
                    }
                },
                None => {
                    proof {
                        lemma_count_occurrence(lat, c, m as int);
                        assert(forall|i: int| 0 <= i < m ==> lat[i] != lat[m as int]) by {
                            assert(forall|i: int|
                                0 <= i < m ==> has_center(self.centers@, #[trigger] lat[i]));
                        }
                        assert(count_color(lat, c, m as int) == 0);
                    }
                    if self.centers.len() == CENTER_CAPACITY {
                        proof {
                            lemma_distinct_monotonic(lat, m as int + 1, n3);
                        }
                        return Err(ConfigurationError::PaletteTooLarge);
                    }
                    let ghost cs0 = self.centers@;
                    self.centers.push((c, (r8 as u64, g8 as u64, b8 as u64), 1));
                    proof {
                        assert(forall|kk: int|
                            0 <= kk < cs0.len() ==> (#[trigger] self.centers@[kk]).0
                                == cs0[kk].0);
                        assert forall|j: int|
                            0 <= j < m + 1 implies has_center(
                            self.centers@,
                            #[trigger] lat[j],
                        ) by {
                            if j < m {
                                let kw = choose|kw: int|
                                    0 <= kw < cs0.len() && (#[trigger] cs0[kw]).0 == lat[j];
                                assert(self.centers@[kw].0 == lat[j]);
                            } else {
                                assert(self.centers@[cs0.len() as int].0 == lat[m as int]);
                            }
                        }
                        lemma_sum_zero(lat, c, m as int, n, 0);
                        lemma_sum_zero(lat, c, m as int, n, 1);
                        lemma_sum_zero(lat, c, m as int, n, 2);
                        assert forall|kk: int| 0 <= kk < self.centers@.len() implies {
                            let e2 = #[trigger] self.centers@[kk];
                            &&& e2.2 as int == count_color(lat, e2.0, m as int + 1)
                            &&& e2.2 > 0
                            &&& e2.1.0 as int == sum_chan(lat, e2.0, m as int + 1, n, 0)
                            &&& e2.1.1 as int == sum_chan(lat, e2.0, m as int + 1, n, 1)
                            &&& e2.1.2 as int == sum_chan(lat, e2.0, m as int + 1, n, 2)
                        } by {
                            let e2 = self.centers@[kk];
                            assert(count_color(lat, e2.0, m as int + 1) == count_color(
                                lat,
                                e2.0,
                                m as int,
                            ) + if lat[m as int] == e2.0 {
                                1int
                            } else {
                                0int
                            });
                            assert(sum_chan(lat, e2.0, m as int + 1, n, 0) == sum_chan(
                                lat,
                                e2.0,
                                m as int,
                                n,
                                0,
                            ) + if lat[m as int] == e2.0 {
                                sample8(coord(m as int, n, 0), n)
                            } else {
                                0int
                            });
                            assert(sum_chan(lat, e2.0, m as int + 1, n, 1) == sum_chan(
                                lat,
                                e2.0,
                                m as int,
                                n,
                                1,
                            ) + if lat[m as int] == e2.0 {
                                sample8(coord(m as int, n, 1), n)
                            } else {
                                0int
                            });
                            assert(sum_chan(lat, e2.0, m as int + 1, n, 2) == sum_chan(
                                lat,
                                e2.0,
                                m as int,
                                n,
                                2,
                            ) + if lat[m as int] == e2.0 {
                                sample8(coord(m as int, n, 2), n)
                            } else {
                                0int
                            });
                            if kk < cs0.len() {
                                assert(cs0[kk].0 != c);
                            }
                        }
                    }
                },
            }
            m = m + 1;
        }
        let mut k: usize = 0;
        let ghost raw = self.centers@;
        while k < self.centers.len()
            invariant
                self.lattice@ == lat,
                Self::n_valid(),
                lat.len() == (N as int) * (N as int) * (N as int),
                self.centers@.len() == raw.len(),
                k <= raw.len(),
                forall|i: int| k <= i < raw.len() ==> self.centers@[i] == raw[i],
                forall|i: int| 0 <= i < raw.len() ==> (#[trigger] self.centers@[i]).0 == raw[i].0
                    && self.centers@[i].2 == raw[i].2,
                forall|i: int|
                    0 <= i < raw.len() ==> {
                        let e = #[trigger] raw[i];
                        &&& e.2 as int == count_color(lat, e.0, lat.len() as int)
                        &&& e.2 > 0
                        &&& e.1.0 as int == sum_chan(lat, e.0, lat.len() as int, n, 0)
                        &&& e.1.1 as int == sum_chan(lat, e.0, lat.len() as int, n, 1)
                        &&& e.1.2 as int == sum_chan(lat, e.0, lat.len() as int, n, 2)
                    },
                forall|i: int|
                    0 <= i < k ==> {
                        let e = #[trigger] self.centers@[i];
                        &&& e.1.0 as int == sum_chan(lat, e.0, lat.len() as int, n, 0)
                            / e.2 as int
                        &&& e.1.1 as int == sum_chan(lat, e.0, lat.len() as int, n, 1)
                            / e.2 as int
                        &&& e.1.2 as int == sum_chan(lat, e.0, lat.len() as int, n, 2)
                            / e.2 as int
                        &&& e.1.0 <= 255
                        &&& e.1.1 <= 255
                        &&& e.1.2 <= 255
                    },
                forall|p: int, q: int|
                    0 <= p < q < self.centers@.len() ==> (#[trigger] self.centers@[p]).0 != (
                    #[trigger] self.centers@[q]).0,
                forall|j: int| 0 <= j < lat.len() ==> has_center(self.centers@, #[trigger] lat[j]),
            decreases raw.len() - k,
        {
            let e = self.centers[k];
            proof {
                lemma_sum_le_count(lat, e.0, lat.len() as int, n, 0);
                lemma_sum_le_count(lat, e.0, lat.len() as int, n, 1);
                lemma_sum_le_count(lat, e.0, lat.len() as int, n, 2);
                lemma_centroid_div_bound(sum_chan(lat, e.0, lat.len() as int, n, 0), e.2 as int);
                lemma_centroid_div_bound(sum_chan(lat, e.0, lat.len() as int, n, 1), e.2 as int);
                lemma_centroid_div_bound(sum_chan(lat, e.0, lat.len() as int, n, 2), e.2 as int);
            }
            let divided = (
                e.0,
                (e.1.0 / e.2 as u64, e.1.1 / e.2 as u64, e.1.2 / e.2 as u64),
                e.2,
            );
            let ghost cs0 = self.centers@;
            self.centers.set(k, divided);
            proof {
                assert(forall|kk: int|
                    0 <= kk < cs0.len() ==> (#[trigger] self.centers@[kk]).0 == cs0[kk].0);
                assert forall|j: int|
                    0 <= j < lat.len() implies has_center(self.centers@, #[trigger] lat[j]) by {
                    let kw = choose|kw: int|
                        0 <= kw < cs0.len() && (#[trigger] cs0[kw]).0 == lat[j];
                    assert(self.centers@[kw].0 == lat[j]);
                }
            }
            k = k + 1;
        }
        Ok(())
    }

    /// The index of the centroid entry for `c`, if the map has one.
    #[verifier::loop_isolation(false)]
    fn scan_center(&self, c: &C) -> (r: Option<usize>)
        ensures
            match r {
                Some(k) => k < self.centers@.len() && self.centers@[k as int].0 == *c,
                None => forall|k: int|
                    0 <= k < self.centers@.len() ==> (#[trigger] self.centers@[k]).0 != *c,
            },
    {
        let mut i: usize = 0;
        while i < self.centers.len()
            invariant
                i <= self.centers@.len(),
                forall|k: int| 0 <= k < i ==> (#[trigger] self.centers@[k]).0 != *c,
            decreases self.centers@.len() - i,
        {
            let e = self.centers[i];
            if e.0.eq_color(c) {
                return Some(i);
            }
            i = i + 1;
        }
        None
    }

    /// Maps a color to its lattice cell's palette color: each channel is
    /// divided by the cell width and the cube indexed directly, with no
    /// search.
    pub fn lookup(&self, c: Color) -> (r: C)
        requires
            self.wf(),
        ensures
            r == self.lookup_view(c),
            r == self.lookup_spec(c),
    {
        proof {
            lemma_n_bound(N as int);
            lemma_cell_bounds(c, N as int);
            lemma_flat_bound(
                c.r as int / (256int / N as int),
                c.g as int / (256int / N as int),
                c.b as int / (256int / N as int),
                N as int,
            );
        }
        let cell = 256 / N;
        let ir = c.r as usize / cell;
        let ig = c.g as usize / cell;
        let ib = c.b as usize / cell;
        proof {
            assert((ir as int) * (N as int) + (ig as int) < 65536) by (nonlinear_arith)
                requires
                    2 <= (N as int) <= 256,
                    (ir as int) < (N as int),
                    (ig as int) < (N as int),
            ;
            assert(((ir as int) * (N as int) + (ig as int)) * (N as int) + (ib as int) < 16777216)
                by (nonlinear_arith)
                requires
                    2 <= (N as int) <= 256,
                    (ir as int) < (N as int),
                    (ig as int) < (N as int),
                    (ib as int) < (N as int),
            ;
        }
        self.lattice[(ir * N + ig) * N + ib]
    }
}

/// A centroid stays on a color channel: the average of channel values
/// bounded by 255 is bounded by 255.
proof fn lemma_centroid_div_bound(sum: int, cnt: int)
    requires
        cnt >= 1,
        0 <= sum <= 255 * cnt,
    ensures
        0 <= sum / cnt <= 255,
{
    lemma_div_pos_is_pos(sum, cnt);
    lemma_div_is_ordered(sum, 255 * cnt, cnt);
    assert((255 * cnt) / cnt == 255) by {
        lemma_div_multiples_vanish(255, cnt);
        vstd::arithmetic::mul::lemma_mul_is_commutative(255, cnt);
    }
}

/// A flat index built from valid lattice coordinates addresses a lattice
/// cell.
proof fn lemma_flat_bound(r: int, g: int, b: int, n: int)
    requires
        n >= 2,
        0 <= r < n,
        0 <= g < n,
        0 <= b < n,
    ensures
        0 <= flat(r, g, b, n) < n * n * n,
{
    assert(0 <= (r * n + g) * n + b < n * n * n) by (nonlinear_arith)
        requires
            n >= 2,
            0 <= r < n,
            0 <= g < n,
            0 <= b < n,
    ;
}

/// Each channel of a color lands in a lattice cell when the resolution
/// divides 256.
proof fn lemma_cell_bounds(c: Color, n: int)
    requires
        n >= 2,
        256int % n == 0,
        n <= 256,
    ensures
        0 <= c.r as int / (256int / n) < n,
        0 <= c.g as int / (256int / n) < n,
        0 <= c.b as int / (256int / n) < n,
        256int / n >= 1,
{
    let cell = 256int / n;
    lemma_fundamental_div_mod(256, n);
    assert(n * cell == 256) by {
        vstd::arithmetic::mul::lemma_mul_is_commutative(n, cell);
    }
    assert(cell >= 1) by {
        if cell <= 0 {
            assert(n * cell <= 0) by (nonlinear_arith)
                requires
                    n >= 2,
                    cell <= 0,
            ;
        }
    }
    assert(cell * n == 256) by {
        vstd::arithmetic::mul::lemma_mul_is_commutative(n, cell);
    }
    lemma_div_pos_is_pos(c.r as int, cell);
    lemma_div_pos_is_pos(c.g as int, cell);
    lemma_div_pos_is_pos(c.b as int, cell);
    lemma_multiply_divide_lt(c.r as int, cell, n);
    lemma_multiply_divide_lt(c.g as int, cell, n);
    lemma_multiply_divide_lt(c.b as int, cell, n);
}

impl<C: LatticeColor, const N: usize> ColorCube<C, N> {
    /// The index of the centroid entry for a color the map covers.
    fn find_center(&self, c: &C) -> (r: usize)
        requires
            has_center(self.centers_view(), *c),
        ensures
            r < self.centers_view().len(),
            self.centers_view()[r as int].0 == *c,
    {
        match self.scan_center(c) {
            Some(k) => k,
            None => {
                proof {
                    let kw = choose|kw: int|
                        0 <= kw < self.centers@.len() && (#[trigger] self.centers@[kw]).0 == *c;
                    assert(false);
                }
                0
            },
        }
    }

    /// The 26-neighbourhood sweep around a lattice cell: the surrounding
    /// cells' palette colors in sweep order, capped at 26 values.
    #[verifier::loop_isolation(false)]
    pub fn neighbours(&self, r: usize, g: usize, b: usize) -> (out: Vec<C>)
        requires
            self.wf(),
            r < N,
            g < N,
            b < N,
        ensures
            out@ == neighbour_seq(
                self.lattice_view(),
                N as int,
                r as int,
                g as int,
                b as int,
                27,
            ),
    {
        proof {
            lemma_n_bound(N as int);
        }
        let mut out: Vec<C> = Vec::new();
        let mut t: usize = 0;
        while t < 27
            invariant
                t <= 27,
                out@.len() <= 26,
                out@ == neighbour_seq(
                    self.lattice_view(),
                    N as int,
                    r as int,
                    g as int,
                    b as int,
                    t as int,
                ),
            decreases 27 - t,
        {
            let i: isize = (t / 9) as isize - 1;
            let j: isize = ((t / 3) % 3) as isize - 1;
            let kk: isize = (t % 3) as isize - 1;
            let ri: isize = r as isize + i;
            let gj: isize = g as isize + j;
            let bk: isize = b as isize + kk;
            if ri >= 0 && ri < N as isize && gj >= 0 && gj < N as isize && bk >= 0 && bk
                < N as isize && out.len() < 26 {
                proof {
                    lemma_flat_bound(ri as int, gj as int, bk as int, N as int);
                    assert((ri as int) * (N as int) + (gj as int) < 65536) by (nonlinear_arith)
                        requires
                            2 <= (N as int) <= 256,
                            0 <= (ri as int) < (N as int),
                            0 <= (gj as int) < (N as int),
                    ;
                    assert(((ri as int) * (N as int) + (gj as int)) * (N as int) + (bk as int)
                        < 16777216) by (nonlinear_arith)
                        requires
                            2 <= (N as int) <= 256,
                            0 <= (ri as int) < (N as int),
                            0 <= (gj as int) < (N as int),
                            0 <= (bk as int) < (N as int),
                    ;
                }
                let idx: usize = ((ri as usize) * N + (gj as usize)) * N + (bk as usize);
                out.push(self.lattice[idx]);
            }
            t = t + 1;
        }
        out
    }
}

impl<C: LatticeColor, const N: usize> Quantizer<C> for ColorCube<C, N> {
    closed spec fn lookup_spec(&self, c: Color) -> C {
        self.lookup_view(c)
    }

    closed spec fn centroid_spec(&self, entry: C) -> (int, int, int) {
        if has_center(self.centers@, entry) {
            let k = choose|k: int|
                0 <= k < self.centers@.len() && (#[trigger] self.centers@[k]).0 == entry;
            (
                self.centers@[k].1.0 as int,
                self.centers@[k].1.1 as int,
                self.centers@[k].1.2 as int,
            )
        } else {
            (0, 0, 0)
        }
    }

    closed spec fn inv(&self) -> bool {
        self.wf()
    }

    proof fn centroid_in_range(&self, c: Color) {
        lemma_n_bound(N as int);
        lemma_cell_bounds(c, N as int);
        let cell = 256int / (N as int);
        let j = flat(c.r as int / cell, c.g as int / cell, c.b as int / cell, N as int);
        lemma_flat_bound(c.r as int / cell, c.g as int / cell, c.b as int / cell, N as int);
        assert(has_center(self.centers@, self.lattice@[j]));
    }

    fn with_error(&self, c: Color) -> (r: (C, (i16, i16, i16))) {
        let pc = self.lookup(c);
        proof {
            lemma_n_bound(N as int);
            lemma_cell_bounds(c, N as int);
            let cell = 256int / (N as int);
            lemma_flat_bound(c.r as int / cell, c.g as int / cell, c.b as int / cell, N as int);
            assert(has_center(self.centers@, pc));
        }
        let k = self.find_center(&pc);
        let e = self.centers[k];
        proof {
            let kk = choose|kk: int|
                0 <= kk < self.centers@.len() && (#[trigger] self.centers@[kk]).0 == pc;
            if kk < k as int {
                assert(self.centers@[kk].0 != self.centers@[k as int].0);
            }
            if (k as int) < kk {
                assert(self.centers@[k as int].0 != self.centers@[kk].0);
            }
        }
        let er: i16 = c.r as i16 - e.1.0 as i16;
        let eg: i16 = c.g as i16 - e.1.1 as i16;
        let eb: i16 = c.b as i16 - e.1.2 as i16;
        (pc, (er, eg, eb))
    }
}

} // verus!
