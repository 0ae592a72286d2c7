use vstd::arithmetic::div_mod::lemma_fundamental_div_mod;
use vstd::arithmetic::div_mod::lemma_fundamental_div_mod_converse;
use vstd::arithmetic::div_mod::lemma_mod_bound;
use vstd::prelude::*;

verus! {

/// A kernel entry for the windowed diffusion sweep: a pair of spatial
/// offsets (width-relative and row-relative) and a numerator / denominator
/// weight pair.
pub type WeightedOffset<T> = ((isize, isize), (T, T));

/// The bound the index arithmetic of `apply_kernel` keeps every operand
/// under, so offsets never overflow machine words.
pub const OFFSET_LIMIT: isize = 30000;

/// The slot a kernel offset lands on, relative to the read cursor: the
/// combined offset taken modulo the window size, so offsets behind the
/// cursor or beyond the horizon wrap back into the window.
pub open spec fn wrap_index(ri: int, xo: int, yo: int, n: int) -> int {
    (ri + xo + yo * n) % (n + 1)
}

/// A sliding window of `n + 1` slots over a pixel source, with independent
/// read and write cursors that wrap modulo the window size.
///
/// The window is primed from the front of the source; the diffusion sweep
/// of `apply_kernel` pulls one lookahead value per call (the fill value
/// once the source is exhausted) and redistributes a quantization error
/// into the slots its kernel offsets select.
#[derive(Debug)]
pub struct WrappingVec<T> {
    v: Vec<T>,
    n: usize,
    read_index: usize,
    write_index: usize,
    kernel: Vec<WeightedOffset<T>>,
    source: Vec<T>,
    source_pos: usize,
    fill: T,
}

impl<T: Copy> WrappingVec<T> {
    /// The window contents; the last slot is the horizon cell.
    pub closed spec fn slots(self) -> Seq<T> {
        self.v@
    }

    pub closed spec fn n_spec(self) -> int {
        self.n as int
    }

    pub closed spec fn read_index_spec(self) -> int {
        self.read_index as int
    }

    pub closed spec fn write_index_spec(self) -> int {
        self.write_index as int
    }

    pub closed spec fn kernel_view(self) -> Seq<WeightedOffset<T>> {
        self.kernel@
    }

    pub closed spec fn source_view(self) -> Seq<T> {
        self.source@
    }

    pub closed spec fn source_pos_spec(self) -> int {
        self.source_pos as int
    }

    pub closed spec fn fill_spec(self) -> T {
        self.fill
    }

    pub closed spec fn wf(self) -> bool {
        &&& self.n >= 1
        &&& self.n <= OFFSET_LIMIT as int
        &&& self.v@.len() == self.n + 1
        &&& self.read_index <= self.n
        &&& self.write_index <= self.n
        &&& self.source_pos <= self.source@.len()
        &&& forall|i: int|
            0 <= i < self.kernel@.len() ==> -OFFSET_LIMIT as int <= (
            #[trigger] self.kernel@[i]).0.0 <= OFFSET_LIMIT as int
                && -OFFSET_LIMIT as int <= self.kernel@[i].0.1 <= OFFSET_LIMIT as int
    }

    /// Primes a window of `n + 1` slots from the front of the source,
    /// filling any missing slots with `fill`, and keeps the rest of the
    /// source for the diffusion sweep to pull from.
    pub fn new(n: usize, source: Vec<T>, kernel: Vec<WeightedOffset<T>>, fill: T) -> (r:
        WrappingVec<T>)
        requires
            1 <= n <= OFFSET_LIMIT as int,
            forall|i: int|
                0 <= i < kernel@.len() ==> -OFFSET_LIMIT as int <= (#[trigger] kernel@[i]).0.0
                    <= OFFSET_LIMIT as int && -OFFSET_LIMIT as int <= kernel@[i].0.1
                    <= OFFSET_LIMIT as int,
        ensures
            r.wf(),
            r.n_spec() == n,
            r.slots() == Seq::new(
                (n + 1) as nat,
                |i: int|
                    if i < source@.len() {
                        source@[i]
                    } else {
                        fill
                    },
            ),
            r.read_index_spec() == 0,
            r.write_index_spec() == 0,
            r.kernel_view() == kernel@,
            r.source_view() == source@,
            r.fill_spec() == fill,
            r.source_pos_spec() == if source@.len() < n + 1 {
                source@.len() as int
            } else {
                n + 1
            },
    {
        let mut v: Vec<T> = Vec::new();
        let mut i: usize = 0;
        while i < n + 1
            invariant
                i <= n + 1,
                n < usize::MAX,
                v@.len() == i,
                forall|j: int|
                    0 <= j < i ==> v@[j] == if j < source@.len() {
                        source@[j]
                    } else {
                        fill
                    },
            decreases n + 1 - i,
        {
            if i < source.len() {
                v.push(source[i]);
            } else {
                v.push(fill);
            }
            i = i + 1;
        }
        let source_pos = if source.len() < n + 1 {
            source.len()
        } else {
            n + 1
        };
        let r = WrappingVec {
            v,
            n,
            read_index: 0,
            write_index: 0,
            kernel,
            source,
            source_pos,
            fill,
        };
        proof {
            assert(r.slots() =~= Seq::new(
                (n + 1) as nat,
                |i: int|
                    if i < source@.len() {
                        source@[i]
                    } else {
                        fill
                    },
            ));
        }
        r
    }

    /// Yields the slot under the read cursor and advances the cursor,
    /// wrapping past the horizon cell back to the first slot.
    pub fn next(&mut self) -> (r: Option<T>)
        requires
            old(self).wf(),
        ensures
            final(self).wf(),
            r == Some(old(self).slots()[old(self).read_index_spec()]),
            final(self).slots() == old(self).slots(),
            final(self).read_index_spec() == if old(self).read_index_spec() < old(self).n_spec() {
                old(self).read_index_spec() + 1
            } else {
                0
            },
            final(self).write_index_spec() == old(self).write_index_spec(),
            final(self).n_spec() == old(self).n_spec(),
            final(self).kernel_view() == old(self).kernel_view(),
            final(self).source_view() == old(self).source_view(),
            final(self).source_pos_spec() == old(self).source_pos_spec(),
            final(self).fill_spec() == old(self).fill_spec(),
    {
        let i = self.read_index;
        self.read_index = if self.read_index < self.n {
            self.read_index + 1
        } else {
            0
        };
        Some(self.v[i])
    }

    /// Stores `item` under the write cursor and advances the cursor,
    /// wrapping past the horizon cell back to the first slot.
    pub fn push(&mut self, item: T)
        requires
            old(self).wf(),
        ensures
            final(self).wf(),
            final(self).slots() == old(self).slots().update(old(self).write_index_spec(), item),
            final(self).write_index_spec() == if old(self).write_index_spec() < old(
                self,
            ).n_spec() {
                old(self).write_index_spec() + 1
            } else {
                0
            },
            final(self).read_index_spec() == old(self).read_index_spec(),
            final(self).n_spec() == old(self).n_spec(),
            final(self).kernel_view() == old(self).kernel_view(),
            final(self).source_view() == old(self).source_view(),
            final(self).source_pos_spec() == old(self).source_pos_spec(),
            final(self).fill_spec() == old(self).fill_spec(),
    {
        let i = self.write_index;
        self.write_index = if self.write_index < self.n {
            self.write_index + 1
        } else {
            0
        };
        self.v.set(i, item);
    }
}

/// Truncating division, as Rust's `/` computes it on signed integers.
pub open spec fn tdiv(a: int, b: int) -> int {
    let q = abs_spec(a) / abs_spec(b);
    if (a < 0) != (b < 0) {
        -q
    } else {
        q
    }
}

pub open spec fn abs_spec(a: int) -> int {
    if a < 0 {
        -a
    } else {
        a
    }
}

/// One kernel entry of the diffusion sweep applied to the window: the slot
/// the wrapped index selects gains the error scaled by the numerator and
/// divided by the denominator.
pub open spec fn apply_weighted(
    slots: Seq<i16>,
    ri: int,
    n: int,
    entry: WeightedOffset<i16>,
    error: i16,
) -> Seq<i16> {
    let idx = wrap_index(ri, entry.0.0 as int, entry.0.1 as int, n);
    if 0 <= idx < slots.len() {
        slots.update(
            idx,
            (slots[idx] + tdiv(error as int * entry.1.0 as int, entry.1.1 as int)) as i16,
        )
    } else {
        slots
    }
}

/// The kernel entries of the diffusion sweep applied in order.
pub open spec fn apply_sweep(
    slots: Seq<i16>,
    ri: int,
    n: int,
    entries: Seq<WeightedOffset<i16>>,
    error: i16,
) -> Seq<i16>
    decreases entries.len(),
{
    if entries.len() == 0 {
        slots
    } else {
        apply_sweep(
            apply_weighted(slots, ri, n, entries[0], error),
            ri,
            n,
            entries.drop_first(),
            error,
        )
    }
}

/// No step of the diffusion sweep overflows an i16 or divides by zero.
pub open spec fn sweep_fits(
    slots: Seq<i16>,
    ri: int,
    n: int,
    entries: Seq<WeightedOffset<i16>>,
    error: i16,
) -> bool
    decreases entries.len(),
{
    if entries.len() == 0 {
        true
    } else {
        let entry = entries[0];
        let idx = wrap_index(ri, entry.0.0 as int, entry.0.1 as int, n);
        let fits_here = {
            &&& entry.1.1 != 0
            &&& (0 <= idx < slots.len() ==> i16::MIN <= slots[idx] + tdiv(
                error as int * entry.1.0 as int,
                entry.1.1 as int,
            ) <= i16::MAX)
        };
        fits_here && sweep_fits(
            apply_weighted(slots, ri, n, entry, error),
            ri,
            n,
            entries.drop_first(),
            error,
        )
    }
}

impl WrappingVec<i16> {
    /// Pulls the next lookahead value from the source (the fill value once
    /// the source is exhausted), redistributes `error` into the slots the
    /// kernel offsets select — each slot gaining its scaled, divided share
    /// at the index wrapped modulo the window size — and pushes the pulled
    /// value under the write cursor.
    pub fn apply_kernel(&mut self, error: i16)
        requires
            old(self).wf(),
            sweep_fits(
                old(self).slots(),
                old(self).read_index_spec(),
                old(self).n_spec(),
                old(self).kernel_view(),
                error,
            ),
        ensures
            final(self).wf(),
            final(self).slots() == apply_sweep(
                old(self).slots(),
                old(self).read_index_spec(),
                old(self).n_spec(),
                old(self).kernel_view(),
                error,
            ).update(
                old(self).write_index_spec(),
                if old(self).source_pos_spec() < old(self).source_view().len() {
                    old(self).source_view()[old(self).source_pos_spec()]
                } else {
                    old(self).fill_spec()
                },
            ),
            final(self).source_pos_spec() == if old(self).source_pos_spec() < old(
                self,
            ).source_view().len() {
                old(self).source_pos_spec() + 1
            } else {
                old(self).source_pos_spec()
            },
            final(self).write_index_spec() == if old(self).write_index_spec() < old(
                self,
            ).n_spec() {
                old(self).write_index_spec() + 1
            } else {
                0
            },
            final(self).read_index_spec() == old(self).read_index_spec(),
            final(self).n_spec() == old(self).n_spec(),
            final(self).kernel_view() == old(self).kernel_view(),
            final(self).source_view() == old(self).source_view(),
            final(self).fill_spec() == old(self).fill_spec(),
    {
        let src_len = self.source.len();
        let horizon = if self.source_pos < src_len {
            let p = self.source[self.source_pos];
            self.source_pos = self.source_pos + 1;
            p
        } else {
            self.fill
        };
        proof {
            assert(self.kernel@.skip(0) =~= self.kernel@);
        }
        let ghost slots0 = self.v@;
        let ghost kernel0 = self.kernel@;
        let ghost ri0 = self.read_index as int;
        let ghost n0 = self.n as int;
        let ghost wi0 = self.write_index as int;
        let ghost src0 = self.source@;
        let ghost spos1 = self.source_pos as int;
        let ghost fill0 = self.fill;
        let mut k: usize = 0;
        while k < self.kernel.len()
            invariant
                k <= kernel0.len(),
                self.wf(),
                self.kernel@ == kernel0,
                self.n as int == n0,
                self.read_index as int == ri0,
                self.write_index as int == wi0,
                self.source@ == src0,
                self.source_pos as int == spos1,
                self.fill == fill0,
                1 <= n0 <= OFFSET_LIMIT as int,
                self.read_index <= self.n,
                self.write_index <= self.n,
                self.v@.len() == n0 + 1,
                self.v@ == apply_sweep(slots0, ri0, n0, kernel0.subrange(0, k as int), error),
                sweep_fits(self.v@, ri0, n0, kernel0.skip(k as int), error),
                forall|i: int|
                    0 <= i < kernel0.len() ==> -OFFSET_LIMIT as int <= (
                    #[trigger] kernel0[i]).0.0 <= OFFSET_LIMIT as int && -OFFSET_LIMIT as int
                        <= kernel0[i].0.1 <= OFFSET_LIMIT as int,
            decreases kernel0.len() - k,
        {
            let ((x_offset, y_offset), (mul, div)) = self.kernel[k];
            proof {
                assert(kernel0.skip(k as int)[0] == kernel0[k as int]);
                assert(-(OFFSET_LIMIT as int) <= kernel0[k as int].0.0 <= OFFSET_LIMIT as int);
                assert(-900000000 <= y_offset as int * n0 <= 900000000) by (nonlinear_arith)
                    requires
                        -30000 <= y_offset as int <= 30000,
                        1 <= n0 <= 30000,
                ;
            }
            let t: isize = self.read_index as isize + x_offset + y_offset * (self.n as isize);
            let m: usize = self.n + 1;
            let idx: usize = if t >= 0 {
                (t as usize) % m
            } else {
                let mag: usize = ((-(t as i64)) as usize) % m;
                proof {
                    lemma_euclid_rem_negative(-(t as int), m as int);
                    lemma_mod_bound(-(t as int), m as int);
                }
                if mag == 0 {
                    0
                } else {
                    m - mag
                }
            };
            proof {
                lemma_mod_bound(t as int, m as int);
                assert(idx as int == wrap_index(ri0, x_offset as int, y_offset as int, n0));
                assert(0 <= idx as int <= n0);
            }
            proof {
                assert(-0x4000_0000 <= (error as int) * (mul as int) <= 0x4000_0000)
                    by (nonlinear_arith)
                    requires
                        -0x8000 <= error as int <= 0x7fff,
                        -0x8000 <= mul as int <= 0x7fff,
                ;
            }
            let p: i32 = error as i32 * mul as i32;
            let quot: i32 = tdiv_i32(p, div as i32);
            let updated: i32 = self.v[idx] as i32 + quot;
            self.v.set(idx, updated as i16);
            proof {
                lemma_sweep_snoc(
                    slots0,
                    ri0,
                    n0,
                    kernel0.subrange(0, k as int),
                    kernel0[k as int],
                    error,
                );
                assert(kernel0.subrange(0, k as int).push(kernel0[k as int]) =~= kernel0.subrange(
                    0,
                    k as int + 1,
                ));
                assert(kernel0.skip(k as int).drop_first() =~= kernel0.skip(k as int + 1));
            }
            k = k + 1;
        }
        proof {
            assert(kernel0.subrange(0, kernel0.len() as int) =~= kernel0);
        }
        self.push(horizon);
    }
}

/// Truncating i32 division, as Rust's `/` computes it.
fn tdiv_i32(a: i32, b: i32) -> (r: i32)
    requires
        b != 0,
        a != i32::MIN,
    ensures
        r as int == tdiv(a as int, b as int),
{
    let na: u32 = if a >= 0 {
        a as u32
    } else {
        (-a) as u32
    };
    let nb: u32 = if b >= 0 {
        b as u32
    } else {
        (-(b as i64)) as u32
    };
    let q: u32 = na / nb;
    proof {
        vstd::arithmetic::div_mod::lemma_div_nonincreasing(na as int, nb as int);
        vstd::arithmetic::div_mod::lemma_div_pos_is_pos(na as int, nb as int);
    }
    if (a < 0) != (b < 0) {
        -(q as i32)
    } else {
        q as i32
    }
}

/// For nonnegative `na` and positive `m`, the remainder of `-na` is zero
/// where `na`'s is, and the modulus minus `na`'s remainder otherwise.
proof fn lemma_euclid_rem_negative(na: int, m: int)
    requires
        na >= 0,
        m >= 1,
    ensures
        (-na) % m == if na % m == 0 {
            0int
        } else {
            m - na % m
        },
{
    let q = na / m;
    let s = na % m;
    lemma_fundamental_div_mod(na, m);
    lemma_mod_bound(na, m);
    if s == 0 {
        assert(-na == (-q) * m + 0) by (nonlinear_arith)
            requires
                na == m * q + s,
                s == 0,
        ;
        lemma_fundamental_div_mod_converse(-na, m, -q, 0);
    } else {
        assert(-na == (-q - 1) * m + (m - s)) by (nonlinear_arith)
            requires
                na == m * q + s,
        ;
        lemma_fundamental_div_mod_converse(-na, m, -q - 1, m - s);
    }
}

/// Appending a kernel entry applies it after the others.
proof fn lemma_sweep_snoc(
    slots: Seq<i16>,
    ri: int,
    n: int,
    entries: Seq<WeightedOffset<i16>>,
    entry: WeightedOffset<i16>,
    error: i16,
)
    ensures
        apply_sweep(slots, ri, n, entries.push(entry), error) == apply_weighted(
            apply_sweep(slots, ri, n, entries, error),
            ri,
            n,
            entry,
            error,
        ),
    decreases entries.len(),
{
    if entries.len() == 0 {
        let w2 = apply_weighted(slots, ri, n, entry, error);
        assert(entries.push(entry)[0] == entry);
        assert(entries.push(entry).drop_first() =~= Seq::<WeightedOffset<i16>>::empty());
        assert(apply_sweep(slots, ri, n, entries.push(entry), error) == apply_sweep(
            w2,
            ri,
            n,
            Seq::<WeightedOffset<i16>>::empty(),
            error,
        ));
        assert(apply_sweep(w2, ri, n, Seq::<WeightedOffset<i16>>::empty(), error) == w2);
        assert(apply_sweep(slots, ri, n, entries, error) == slots);
    } else {
        assert(entries.push(entry)[0] == entries[0]);
        assert(entries.push(entry).drop_first() =~= entries.drop_first().push(entry));
        assert(apply_sweep(slots, ri, n, entries.push(entry), error) == apply_sweep(
            apply_weighted(slots, ri, n, entries[0], error),
            ri,
            n,
            entries.drop_first().push(entry),
            error,
        ));
        assert(apply_sweep(slots, ri, n, entries, error) == apply_sweep(
            apply_weighted(slots, ri, n, entries[0], error),
            ri,
            n,
            entries.drop_first(),
            error,
        ));
        lemma_sweep_snoc(
            apply_weighted(slots, ri, n, entries[0], error),
            ri,
            n,
            entries.drop_first(),
            entry,
            error,
        );
    }
}


/// The sum of a sweep kernel's weight numerators.
pub open spec fn mul_sum(entries: Seq<WeightedOffset<i16>>) -> int
    decreases entries.len(),
{
    if entries.len() == 0 {
        0
    } else {
        entries[0].1.0 as int + mul_sum(entries.drop_first())
    }
}

/// The total share a sweep hands out for an error: the sum of the scaled,
/// divided shares of every kernel entry.
pub open spec fn share_total(e: int, entries: Seq<WeightedOffset<i16>>) -> int
    decreases entries.len(),
{
    if entries.len() == 0 {
        0
    } else {
        tdiv(e * entries[0].1.0 as int, entries[0].1.1 as int) + share_total(
            e,
            entries.drop_first(),
        )
    }
}

/// For a nonnegative error and sixteenth-weights, the shares floor-divide,
/// so they total at most the exact amount and lose under one unit per term.
proof fn lemma_share_total_floor(e: int, entries: Seq<WeightedOffset<i16>>)
    requires
        e >= 0,
        forall|i: int|
            0 <= i < entries.len() ==> (#[trigger] entries[i]).1.1 == 16 && entries[i].1.0 >= 0,
    ensures
        share_total(e, entries) <= (e * mul_sum(entries)) / 16,
        entries.len() >= 1 ==> share_total(e, entries) > (e * mul_sum(entries)) / 16
            - entries.len(),
        entries.len() == 0 ==> share_total(e, entries) == 0,
    decreases entries.len(),
{
    if entries.len() >= 1 {
        let a = e * entries[0].1.0 as int;
        let rest = entries.drop_first();
        assert(a >= 0) by (nonlinear_arith)
            requires
                e >= 0,
                entries[0].1.0 as int >= 0,
                a == e * entries[0].1.0 as int,
        ;
        assert(tdiv(a, 16) == a / 16);
        lemma_share_total_floor(e, rest);
        assert(e * mul_sum(entries) == a + e * mul_sum(rest)) by (nonlinear_arith)
            requires
                mul_sum(entries) == entries[0].1.0 as int + mul_sum(rest),
                a == e * entries[0].1.0 as int,
        ;
        crate::dither::lemma_floor_div_add(a, e * mul_sum(rest));
        if rest.len() == 0 {
            assert(e * mul_sum(rest) == 0) by (nonlinear_arith)
                requires
                    mul_sum(rest) == 0,
            ;
            assert((0int) / 16 == 0) by {
                vstd::arithmetic::div_mod::lemma_div_of0(16);
            }
        }
    }
}

/// The total share is an odd function of the error.
proof fn lemma_share_total_odd(e: int, entries: Seq<WeightedOffset<i16>>)
    requires
        forall|i: int|
            0 <= i < entries.len() ==> (#[trigger] entries[i]).1.1 == 16 && entries[i].1.0 >= 0,
    ensures
        share_total(e, entries) == -share_total(-e, entries),
    decreases entries.len(),
{
    if entries.len() >= 1 {
        let m = entries[0].1.0 as int;
        assert((-e) * m == -(e * m)) by (nonlinear_arith);
        assert(tdiv(e * m, 16) == -tdiv(-(e * m), 16));
        lemma_share_total_odd(e, entries.drop_first());
    }
}

/// Law: for any sweep kernel whose denominators are 16 and whose
/// nonnegative numerators sum to 16, the shares the sweep hands out add up
/// to the error within one unit per kernel term and never past it:
/// repeated diffusion introduces no net bias beyond truncation loss.
pub proof fn lemma_sweep_energy_conservation(error: i16, entries: Seq<WeightedOffset<i16>>)
    requires
        forall|i: int|
            0 <= i < entries.len() ==> (#[trigger] entries[i]).1.1 == 16 && entries[i].1.0 >= 0,
        mul_sum(entries) == 16,
    ensures
        error >= 0 ==> error - entries.len() < share_total(error as int, entries)
            <= error as int,
        error <= 0 ==> error as int <= share_total(error as int, entries) < error
            + entries.len(),
{
    lemma_mul_sum_len(entries);
    lemma_share_total_odd(error as int, entries);
    if error >= 0 {
        lemma_share_total_floor(error as int, entries);
        lemma_cancel_sixteen(error as int);
    }
    if error <= 0 {
        lemma_share_total_floor(-(error as int), entries);
        lemma_cancel_sixteen(-(error as int));
    }
}

/// A kernel with a positive numerator sum has at least one entry.
proof fn lemma_mul_sum_len(entries: Seq<WeightedOffset<i16>>)
    requires
        mul_sum(entries) == 16,
    ensures
        entries.len() >= 1,
{
}

/// Scaling by 16 and flooring by 16 cancel.
proof fn lemma_cancel_sixteen(x: int)
    ensures
        (x * 16) / 16 == x,
{
    vstd::arithmetic::div_mod::lemma_div_multiples_vanish(x, 16);
    vstd::arithmetic::mul::lemma_mul_is_commutative(x, 16);
}

} // verus!
