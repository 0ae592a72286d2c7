use vstd::prelude::*;

use crate::vector::Fixed16;
use crate::wrapping_vec::OFFSET_LIMIT;

verus! {

/// A kernel entry for the windowed convolution: a pair of spatial offsets
/// and a fixed-point coefficient.
pub type CoefficientOffset = ((isize, isize), Fixed16);

/// One convolution entry applied to the window: the slot the width offset
/// selects, relative to the read cursor and without wrapping, takes the
/// error scaled by the coefficient; offsets that leave the window are
/// dropped.
pub open spec fn conv_apply(
    v: Seq<Fixed16>,
    ri: int,
    entry: CoefficientOffset,
    e: Fixed16,
) -> Seq<Fixed16> {
    let idx = ri + entry.0.0;
    if 0 <= idx < v.len() {
        v.update(idx, v[idx].spec_add(e.spec_mul(entry.1)))
    } else {
        v
    }
}

/// The convolution entries applied in order.
pub open spec fn conv_sweep(
    v: Seq<Fixed16>,
    ri: int,
    entries: Seq<CoefficientOffset>,
    e: Fixed16,
) -> Seq<Fixed16>
    decreases entries.len(),
{
    if entries.len() == 0 {
        v
    } else {
        conv_sweep(conv_apply(v, ri, entries[0], e), ri, entries.drop_first(), e)
    }
}

/// Appending a convolution entry applies it after the others.
proof fn lemma_conv_snoc(
    v: Seq<Fixed16>,
    ri: int,
    entries: Seq<CoefficientOffset>,
    entry: CoefficientOffset,
    e: Fixed16,
)
    ensures
        conv_sweep(v, ri, entries.push(entry), e) == conv_apply(
            conv_sweep(v, ri, entries, e),
            ri,
            entry,
            e,
        ),
    decreases entries.len(),
{
    if entries.len() == 0 {
        let w2 = conv_apply(v, ri, entry, e);
        assert(entries.push(entry)[0] == entry);
        assert(entries.push(entry).drop_first() =~= Seq::<CoefficientOffset>::empty());
        assert(conv_sweep(v, ri, entries.push(entry), e) == conv_sweep(
            w2,
            ri,
            Seq::<CoefficientOffset>::empty(),
            e,
        ));
        assert(conv_sweep(w2, ri, Seq::<CoefficientOffset>::empty(), e) == w2);
        assert(conv_sweep(v, ri, entries, e) == v);
    } else {
        assert(entries.push(entry)[0] == entries[0]);
        assert(entries.push(entry).drop_first() =~= entries.drop_first().push(entry));
        assert(conv_sweep(v, ri, entries.push(entry), e) == conv_sweep(
            conv_apply(v, ri, entries[0], e),
            ri,
            entries.drop_first().push(entry),
            e,
        ));
        assert(conv_sweep(v, ri, entries, e) == conv_sweep(
            conv_apply(v, ri, entries[0], e),
            ri,
            entries.drop_first(),
            e,
        ));
        lemma_conv_snoc(conv_apply(v, ri, entries[0], e), ri, entries.drop_first(), entry, e);
    }
}


/// A zero conversion error diffuses nothing: the sweep leaves a window of
/// representable values untouched, whatever the kernel.
pub proof fn lemma_conv_sweep_zero(v: Seq<Fixed16>, ri: int, entries: Seq<CoefficientOffset>)
    requires
        forall|j: int| 0 <= j < v.len() ==> (#[trigger] v[j]).bits != i32::MIN,
    ensures
        conv_sweep(v, ri, entries, Fixed16 { bits: 0 }) == v,
    decreases entries.len(),
{
    let zero = Fixed16 { bits: 0 };
    if entries.len() > 0 {
        assert(zero.spec_mul(entries[0].1) == zero) by {
            assert(0int * entries[0].1.bits as int == 0);
            vstd::arithmetic::div_mod::lemma_div_of0(0x10000);
        }
        let idx = ri + entries[0].0.0;
        if 0 <= idx < v.len() {
            assert(v[idx].spec_add(zero) == v[idx]);
            assert(conv_apply(v, ri, entries[0], zero) =~= v);
        }
        lemma_conv_sweep_zero(v, ri, entries.drop_first());
    }
}

/// A windowed convolution over a pixel source: a window of `n` slots with
/// independent read and write cursors, an injected conversion that maps
/// each slot to an output value plus an error, and a kernel that spreads
/// the error over slots ahead of the read cursor, clipping offsets that
/// leave the window.
///
/// The window holds fixed-point scalars; the three-channel color pipeline
/// stands in the dither engine, which generalizes over the quantizer
/// instead of over a conversion closure.
#[verifier::reject_recursive_types(Y)]
pub struct WindowingConvolution<Y, F> where F: Fn(Fixed16) -> (Y, Fixed16) {
    v: Vec<Fixed16>,
    n: usize,
    write_index: usize,
    read_index: usize,
    kernel: Vec<CoefficientOffset>,
    source: Vec<Fixed16>,
    source_pos: usize,
    conversion: F,
    last_row: usize,
}

impl<Y: Copy, F: Fn(Fixed16) -> (Y, Fixed16)> WindowingConvolution<Y, F> {
    pub closed spec fn window(self) -> Seq<Fixed16> {
        self.v@
    }

    pub closed spec fn n_spec(self) -> int {
        self.n as int
    }

    pub closed spec fn read_index_spec(self) -> int {
        self.read_index as int
    }

    pub closed spec fn write_index_spec(self) -> int {
        self.write_index as int
    }

    pub closed spec fn kernel_view(self) -> Seq<CoefficientOffset> {
        self.kernel@
    }

    pub closed spec fn source_view(self) -> Seq<Fixed16> {
        self.source@
    }

    pub closed spec fn source_pos_spec(self) -> int {
        self.source_pos as int
    }

    pub closed spec fn last_row_spec(self) -> int {
        self.last_row as int
    }

    pub closed spec fn conversion_spec(self) -> F {
        self.conversion
    }

    pub closed spec fn wf(self) -> bool {
        &&& 1 <= self.n <= OFFSET_LIMIT as int
        &&& self.v@.len() == self.n
        &&& self.read_index < self.n
        &&& self.write_index < self.n
        &&& self.source_pos <= self.source@.len()
        &&& self.last_row <= self.n
        &&& forall|i: int|
            0 <= i < self.kernel@.len() ==> -OFFSET_LIMIT as int <= (
            #[trigger] self.kernel@[i]).0.0 <= OFFSET_LIMIT as int
        &&& forall|x: Fixed16| call_requires(self.conversion, (x,))
    }

    /// Primes a window of `n` slots from the front of the source and keeps
    /// the rest of the source to refill slots as values are consumed.
    pub fn new(n: usize, source: Vec<Fixed16>, kernel: Vec<CoefficientOffset>, conversion: F) -> (r:
        WindowingConvolution<Y, F>)
        requires
            1 <= n <= OFFSET_LIMIT as int,
            source@.len() >= n,
            forall|i: int|
                0 <= i < kernel@.len() ==> -OFFSET_LIMIT as int <= (#[trigger] kernel@[i]).0.0
                    <= OFFSET_LIMIT as int,
            forall|x: Fixed16| call_requires(conversion, (x,)),
        ensures
            r.wf(),
            r.n_spec() == n,
            r.window() == source@.subrange(0, n as int),
            r.read_index_spec() == 0,
            r.write_index_spec() == 0,
            r.kernel_view() == kernel@,
            r.source_view() == source@,
            r.source_pos_spec() == n,
            r.last_row_spec() == 0,
            r.conversion_spec() == conversion,
    {
        let mut v: Vec<Fixed16> = Vec::new();
        let mut i: usize = 0;
        while i < n
            invariant
                i <= n,
                n <= source@.len(),
                v@.len() == i,
                forall|j: int| 0 <= j < i ==> v@[j] == source@[j],
            decreases n - i,
        {
            v.push(source[i]);
            i = i + 1;
        }
        let r = WindowingConvolution {
            v,
            n,
            write_index: 0,
            read_index: 0,
            kernel,
            source,
            source_pos: n,
            conversion,
            last_row: 0,
        };
        proof {
            assert(r.v@ =~= r.source@.subrange(0, n as int));
        }
        r
    }

    fn advance_read_index(&mut self)
        requires
            old(self).wf(),
        ensures
            final(self).wf(),
            final(self).window() == old(self).window(),
            final(self).n_spec() == old(self).n_spec(),
            final(self).write_index_spec() == old(self).write_index_spec(),
            final(self).kernel_view() == old(self).kernel_view(),
            final(self).source_view() == old(self).source_view(),
            final(self).source_pos_spec() == old(self).source_pos_spec(),
            final(self).last_row_spec() == old(self).last_row_spec(),
            final(self).conversion_spec() == old(self).conversion_spec(),
            final(self).read_index_spec() == if old(self).read_index_spec() < old(self).n_spec()
                - 1 {
                old(self).read_index_spec() + 1
            } else {
                0
            },
    {
        self.read_index = if self.read_index < self.n - 1 {
            self.read_index + 1
        } else {
            0
        };
    }

    fn advance_write_index(&mut self)
        requires
            old(self).wf(),
        ensures
            final(self).wf(),
            final(self).window() == old(self).window(),
            final(self).n_spec() == old(self).n_spec(),
            final(self).read_index_spec() == old(self).read_index_spec(),
            final(self).kernel_view() == old(self).kernel_view(),
            final(self).source_view() == old(self).source_view(),
            final(self).source_pos_spec() == old(self).source_pos_spec(),
            final(self).last_row_spec() == old(self).last_row_spec(),
            final(self).conversion_spec() == old(self).conversion_spec(),
            final(self).write_index_spec() == if old(self).write_index_spec() < old(
                self,
            ).n_spec() - 1 {
                old(self).write_index_spec() + 1
            } else {
                0
            },
    {
        self.write_index = if self.write_index < self.n - 1 {
            self.write_index + 1
        } else {
            0
        };
    }

    /// Converts the slot under the read cursor into an output value and an
    /// error, spreads the error over the slots the kernel offsets select,
    /// advances the read cursor, and refills the slot under the write
    /// cursor from the source; once the source is exhausted the sweep runs
    /// `n` more times and then yields nothing.
    pub fn next(&mut self) -> (r: Option<Y>)
        requires
            old(self).wf(),
        ensures
            final(self).wf(),
            final(self).n_spec() == old(self).n_spec(),
            final(self).kernel_view() == old(self).kernel_view(),
            final(self).source_view() == old(self).source_view(),
            final(self).conversion_spec() == old(self).conversion_spec(),
            exists|ve: (Y, Fixed16)|
                {
                    &&& #[trigger] call_ensures(
                        old(self).conversion_spec(),
                        (old(self).window()[old(self).read_index_spec()],),
                        ve,
                    )
                    &&& {
                        let v1 = conv_sweep(
                            old(self).window(),
                            old(self).read_index_spec(),
                            old(self).kernel_view(),
                            ve.1,
                        );
                        let ri1 = if old(self).read_index_spec() < old(self).n_spec() - 1 {
                            old(self).read_index_spec() + 1
                        } else {
                            0
                        };
                        &&& final(self).read_index_spec() == ri1
                        &&& if old(self).source_pos_spec() < old(self).source_view().len() {
                            &&& final(self).window() == v1.update(
                                old(self).write_index_spec(),
                                old(self).source_view()[old(self).source_pos_spec()],
                            )
                            &&& final(self).source_pos_spec() == old(self).source_pos_spec() + 1
                            &&& final(self).last_row_spec() == old(self).last_row_spec()
                            &&& r == Some(ve.0)
                        } else if old(self).last_row_spec() == old(self).n_spec() {
                            &&& final(self).window() == v1
                            &&& final(self).source_pos_spec() == old(self).source_pos_spec()
                            &&& final(self).last_row_spec() == old(self).last_row_spec()
                            &&& r is None
                        } else {
                            &&& final(self).window() == v1
                            &&& final(self).source_pos_spec() == old(self).source_pos_spec()
                            &&& final(self).last_row_spec() == old(self).last_row_spec() + 1
                            &&& r == Some(ve.0)
                        }
                    }
                },
    {
        let head = self.v[self.read_index];
        let (value, error) = (self.conversion)(head);
        let ghost ve = (value, error);
        let ghost n0 = self.n;
        let ghost v0 = self.v@;
        let ghost ri0 = self.read_index as int;
        let ghost kernel0 = self.kernel@;
        let ghost wi0 = self.write_index as int;
        let ghost src0 = self.source@;
        let ghost sp0 = self.source_pos as int;
        let ghost lr0 = self.last_row as int;
        let ghost conv0 = self.conversion;
        let mut k: usize = 0;
        while k < self.kernel.len()
            invariant
                k <= kernel0.len(),
                self.wf(),
                self.kernel@ == kernel0,
                self.read_index as int == ri0,
                self.write_index as int == wi0,
                self.source@ == src0,
                self.source_pos as int == sp0,
                self.last_row as int == lr0,
                self.conversion == conv0,
                self.read_index < self.n,
                self.write_index < self.n,
                self.n == n0,
                1 <= self.n <= OFFSET_LIMIT as int,
                self.v@.len() == self.n,
                self.v@ == conv_sweep(v0, ri0, kernel0.subrange(0, k as int), error),
                forall|i: int|
                    0 <= i < kernel0.len() ==> -OFFSET_LIMIT as int <= (
                    #[trigger] kernel0[i]).0.0 <= OFFSET_LIMIT as int,
            decreases kernel0.len() - k,
        {
            let ((x_offset, _y_offset), coefficient) = self.kernel[k];
            proof {
                assert(kernel0.subrange(0, k as int).push(kernel0[k as int]) =~= kernel0.subrange(
                    0,
                    k as int + 1,
                ));
                lemma_conv_snoc(v0, ri0, kernel0.subrange(0, k as int), kernel0[k as int], error);
            }
            let idx: isize = self.read_index as isize + x_offset;
            if idx >= 0 && idx < self.n as isize {
                let i = idx as usize;
                let updated = self.v[i].add(error.mul(coefficient));
                self.v.set(i, updated);
            }
            k = k + 1;
        }
        proof {
            assert(kernel0.subrange(0, kernel0.len() as int) =~= kernel0);
        }
        self.advance_read_index();
        if self.source_pos < self.source.len() {
            let p = self.source[self.source_pos];
            let wi = self.write_index;
            self.v.set(wi, p);
            self.source_pos = self.source_pos + 1;
            self.advance_write_index();
            proof {
                assert(call_ensures(
                    old(self).conversion_spec(),
                    (old(self).window()[old(self).read_index_spec()],),
                    ve,
                ));
            }
            Some(value)
        } else {
            if self.last_row == self.n {
                proof {
                    assert(call_ensures(
                        old(self).conversion_spec(),
                        (old(self).window()[old(self).read_index_spec()],),
                        ve,
                    ));
                }
                return None;
            }
            self.last_row = self.last_row + 1;
            proof {
                assert(call_ensures(
                    old(self).conversion_spec(),
                    (old(self).window()[old(self).read_index_spec()],),
                    ve,
                ));
            }
            Some(value)
        }
    }
}

} // verus!
