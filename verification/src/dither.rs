use vstd::prelude::*;

use crate::accumulator::shr_floor;
use crate::accumulator::Accumulator;
use vstd::arithmetic::power2::pow2;
use crate::color::Color;
use crate::quantize::Quantizer;
use crate::ring_buffer::RingBuffer;

verus! {

/// A fault in the engine's configuration, surfaced at construction time,
/// before any pixel is processed.
#[derive(Copy, Clone, PartialEq, Eq, Structural, Debug)]
pub enum ConfigurationError {
    /// The output width is zero.
    ZeroWidth,
    /// A diffusion-kernel entry references an offset outside the valid
    /// window of 1 ..= width + 1.
    KernelOffsetOutOfRange,
    /// The palette holds more distinct colors than the quantizer's internal
    /// centroid map can carry.
    PaletteTooLarge,
}

/// A diffusion-kernel entry: a forward offset from the pixel being
/// quantized, and the numerator of the weight over the fixed denominator
/// of 16.
pub type KernelEntry = (isize, u8);

/// Every kernel offset lies in the valid window: at least one pixel ahead
/// of the quantized pixel and at most width + 1 ahead, where it wraps onto
/// the freshly admitted horizon slot.
pub open spec fn kernel_valid(kernel: Seq<KernelEntry>, width: int) -> bool {
    forall|i: int| 0 <= i < kernel.len() ==> 1 <= (#[trigger] kernel[i]).0 <= width + 1
}

/// The portion of an error diffused through one kernel entry: the error
/// scaled by the numerator, then divided by 16 by an arithmetic shift.
pub open spec fn scaled_error(e: Accumulator, num: u8) -> Accumulator {
    e.spec_mul(num as i32).spec_shr(4)
}

/// One kernel entry applied to the window: the slot `offset - 1` ahead of
/// the new head takes its share of the error.
pub open spec fn apply_entry(
    window: Seq<Accumulator>,
    entry: KernelEntry,
    e: Accumulator,
) -> Seq<Accumulator> {
    let pos = entry.0 - 1;
    if 0 <= pos < window.len() {
        window.update(pos, window[pos].spec_add(scaled_error(e, entry.1)))
    } else {
        window
    }
}

/// The kernel entries applied to the window in order.
pub open spec fn diffuse(
    window: Seq<Accumulator>,
    kernel: Seq<KernelEntry>,
    e: Accumulator,
) -> Seq<Accumulator>
    decreases kernel.len(),
{
    if kernel.len() == 0 {
        window
    } else {
        diffuse(apply_entry(window, kernel[0], e), kernel.drop_first(), e)
    }
}

/// The quantization error an engine diffuses for a head color: the color
/// minus the centroid of its palette entry, channel by channel.
pub open spec fn error_of<C, Q: Quantizer<C>>(q: &Q, c: Color) -> Accumulator {
    let cen = q.centroid_spec(q.lookup_spec(c));
    Accumulator {
        r: (c.r as int - cen.0) as i32,
        g: (c.g as int - cen.1) as i32,
        b: (c.b as int - cen.2) as i32,
    }
}

/// A freshly primed window: the first `cap` source colors as accumulators,
/// padded with the fill color where the source runs short.
pub open spec fn primed(src: Seq<Color>, cap: int, fill: Color) -> Seq<Accumulator> {
    Seq::new(
        cap as nat,
        |i: int|
            Accumulator::spec_from_color(
                if i < src.len() {
                    src[i]
                } else {
                    fill
                },
            ),
    )
}

/// The colors the engine emits: for `k` steps, quantize the clamped head,
/// admit the next source color (or the fill color once the source is
/// exhausted), and diffuse the head's quantization error through the
/// kernel.
pub open spec fn dither_seq<C, Q: Quantizer<C>>(
    q: &Q,
    kernel: Seq<KernelEntry>,
    window: Seq<Accumulator>,
    src: Seq<Color>,
    fill: Color,
    k: nat,
) -> Seq<C>
    decreases k,
{
    if k == 0 {
        Seq::empty()
    } else {
        let c = window[0].spec_to_color();
        let pc = q.lookup_spec(c);
        let e = error_of(q, c);
        let next = if src.len() > 0 {
            src[0]
        } else {
            fill
        };
        let w1 = diffuse(
            window.drop_first().push(Accumulator::spec_from_color(next)),
            kernel,
            e,
        );
        let rest = if src.len() > 0 {
            src.drop_first()
        } else {
            src
        };
        seq![pc] + dither_seq(q, kernel, w1, rest, fill, (k - 1) as nat)
    }
}

/// The full image a dither run emits: one output color per source color,
/// in the same row-major order.
pub open spec fn dither_full<C, Q: Quantizer<C>>(
    q: &Q,
    kernel: Seq<KernelEntry>,
    src: Seq<Color>,
    width: int,
    fill: Color,
) -> Seq<C> {
    let consumed = if src.len() < width + 1 {
        src.len() as int
    } else {
        width + 1
    };
    dither_seq(q, kernel, primed(src, width + 1, fill), src.skip(consumed), fill, src.len())
}

/// The streaming error-diffusion engine.
///
/// It holds a window of width + 1 in-flight accumulators and its remaining
/// pixel source; each step quantizes the oldest slot, diffuses the
/// resulting error into the window, admits the next source color, and
/// emits the quantized color.
pub struct DitherEngine {
    kernel: Vec<KernelEntry>,
    width: usize,
    buffer: RingBuffer<Accumulator>,
    source: Vec<Color>,
    pos: usize,
    remaining: usize,
    fill: Color,
}

impl DitherEngine {
    pub closed spec fn wf(self) -> bool {
        &&& self.width >= 1
        &&& self.buffer.wf()
        &&& self.buffer.capacity() == self.width + 1
        &&& kernel_valid(self.kernel@, self.width as int)
        &&& self.pos <= self.source@.len()
        &&& self.remaining <= self.source@.len()
        &&& self.pos as int == if self.source@.len() - self.remaining + self.width + 1
            < self.source@.len() {
            self.source@.len() - self.remaining + self.width + 1
        } else {
            self.source@.len() as int
        }
    }

    pub closed spec fn kernel_view(self) -> Seq<KernelEntry> {
        self.kernel@
    }

    pub closed spec fn source_view(self) -> Seq<Color> {
        self.source@
    }

    pub closed spec fn window(self) -> Seq<Accumulator> {
        self.buffer.window()
    }

    pub closed spec fn pos_spec(self) -> int {
        self.pos as int
    }

    pub closed spec fn remaining_spec(self) -> int {
        self.remaining as int
    }

    pub closed spec fn fill_spec(self) -> Color {
        self.fill
    }

    /// The colors the engine will still emit when driven with quantizer
    /// `q`.
    pub open spec fn outputs<C, Q: Quantizer<C>>(self, q: &Q) -> Seq<C> {
        dither_seq(
            q,
            self.kernel_view(),
            self.window(),
            self.source_view().skip(self.pos_spec()),
            self.fill_spec(),
            self.remaining_spec() as nat,
        )
    }

    /// Validates the configuration, primes the window with the first
    /// width + 1 source colors (padding with the fill color if the source
    /// is shorter), and stands ready to emit one output per source color.
    pub fn new(width: usize, kernel: Vec<KernelEntry>, source: Vec<Color>, fill: Color) -> (r:
        Result<DitherEngine, ConfigurationError>)
        requires
            width < usize::MAX,
        ensures
            width == 0 ==> r == Result::<DitherEngine, ConfigurationError>::Err(
                ConfigurationError::ZeroWidth,
            ),
            width >= 1 && !kernel_valid(kernel@, width as int) ==> r == Result::<
                DitherEngine,
                ConfigurationError,
            >::Err(ConfigurationError::KernelOffsetOutOfRange),
            width >= 1 && kernel_valid(kernel@, width as int) ==> r is Ok
                && r->Ok_0.wf()
                && r->Ok_0.kernel_view() == kernel@
                && r->Ok_0.source_view() == source@
                && r->Ok_0.fill_spec() == fill
                && r->Ok_0.remaining_spec() == source@.len()
                && r->Ok_0.pos_spec() == (if source@.len() < width + 1 {
                source@.len() as int
            } else {
                width + 1
            })
                && r->Ok_0.window() == primed(source@, width + 1, fill),
    {
        if width == 0 {
            return Err(ConfigurationError::ZeroWidth);
        }
        let mut i: usize = 0;
        while i < kernel.len()
            invariant
                width >= 1,
                i <= kernel@.len(),
                width < usize::MAX,
                forall|j: int| 0 <= j < i ==> 1 <= (#[trigger] kernel@[j]).0 <= width + 1,
            decreases kernel@.len() - i,
        {
            let (d, _) = kernel[i];
            if d < 1 || (d as usize) > width + 1 {
                return Err(ConfigurationError::KernelOffsetOutOfRange);
            }
            i = i + 1;
        }
        let mut accs: Vec<Accumulator> = Vec::new();
        let mut j: usize = 0;
        while j < source.len()
            invariant
                j <= source@.len(),
                accs@.len() == j,
                forall|k: int|
                    0 <= k < j ==> accs@[k] == Accumulator::spec_from_color(source@[k]),
            decreases source@.len() - j,
        {
            accs.push(Accumulator::from_color(source[j]));
            j = j + 1;
        }
        let buffer = RingBuffer::new(width, &accs, Accumulator::from_color(fill));
        let pos = if source.len() < width + 1 {
            source.len()
        } else {
            width + 1
        };
        let remaining = source.len();
        let engine = DitherEngine { kernel, width, buffer, source, pos, remaining, fill };
        proof {
            assert(engine.buffer.window() =~= primed(engine.source@, width + 1, fill));
        }
        Ok(engine)
    }

    /// How many output colors are still owed.
    pub fn remaining(&self) -> (r: usize)
        ensures
            r == self.remaining_spec(),
    {
        self.remaining
    }

    /// One engine step: quantizes the head, diffuses its error, admits the
    /// next source color (or the fill color), and emits the head's palette
    /// entry.
    pub fn step<C: Copy, Q: Quantizer<C>>(&mut self, q: &Q) -> (r: C)
        requires
            old(self).wf(),
            old(self).remaining_spec() > 0,
            q.inv(),
        ensures
            final(self).wf(),
            r == old(self).outputs(q)[0],
            final(self).outputs::<C, Q>(q) == old(self).outputs::<C, Q>(q).drop_first(),
            final(self).remaining_spec() == old(self).remaining_spec() - 1,
            final(self).kernel_view() == old(self).kernel_view(),
            final(self).source_view() == old(self).source_view(),
            final(self).fill_spec() == old(self).fill_spec(),
    {
        proof {
            self.buffer.lemma_window_len();
        }
        let head = self.buffer.read(0);
        let c = head.to_color();
        let (pc, e) = q.with_error(c);
        proof {
            q.centroid_in_range(c);
        }
        let err = Accumulator { r: e.0 as i32, g: e.1 as i32, b: e.2 as i32 };
        proof {
            assert(err == error_of(q, c));
        }
        let next = if self.pos < self.source.len() {
            let p = self.source[self.pos];
            self.pos = self.pos + 1;
            p
        } else {
            self.fill
        };
        self.buffer.push(Accumulator::from_color(next));
        proof {
            self.buffer.lemma_window_len();
        }
        let ghost w1 = self.buffer.window();
        let ghost kernel0 = self.kernel@;
        let ghost src0 = self.source@;
        let ghost fill0 = self.fill;
        let ghost pos1 = self.pos;
        let ghost rem0 = self.remaining;
        let ghost width0 = self.width;
        let mut i: usize = 0;
        while i < self.kernel.len()
            invariant
                i <= kernel0.len(),
                self.kernel@ == kernel0,
                self.source@ == src0,
                self.fill == fill0,
                self.pos == pos1,
                self.remaining == rem0,
                self.width == width0,
                rem0 >= 1,
                kernel_valid(kernel0, self.width as int),
                self.buffer.wf(),
                self.buffer.capacity() == self.width + 1,
                self.width >= 1,
                self.buffer.window() == diffuse(w1, kernel0.subrange(0, i as int), err),
                w1.len() == self.width + 1,
            decreases kernel0.len() - i,
        {
            let (d, num) = self.kernel[i];
            let scaled = err.mul(num as i32).shr(4);
            let off = (d as usize) - 1;
            let mut slot = self.buffer.read(off);
            proof {
                lemma_diffuse_preserves_len(w1, kernel0.subrange(0, i as int), err);
            }
            slot.add_assign(scaled);
            self.buffer.write(off, slot);
            proof {
                lemma_diffuse_snoc(w1, kernel0.subrange(0, i as int), kernel0[i as int], err);
                assert(kernel0.subrange(0, i as int).push(kernel0[i as int]) =~= kernel0.subrange(
                    0,
                    i as int + 1,
                ));
            }
            i = i + 1;
        }
        self.remaining = self.remaining - 1;
        proof {
            assert(kernel0.subrange(0, kernel0.len() as int) =~= kernel0);
            lemma_step_outputs(old(self), self, q, pc, err);
        }
        pc
    }
}

/// Diffusion never changes the window's length.
proof fn lemma_diffuse_preserves_len(
    window: Seq<Accumulator>,
    kernel: Seq<KernelEntry>,
    e: Accumulator,
)
    ensures
        diffuse(window, kernel, e).len() == window.len(),
    decreases kernel.len(),
{
    if kernel.len() > 0 {
        lemma_diffuse_preserves_len(apply_entry(window, kernel[0], e), kernel.drop_first(), e);
    }
}

/// Appending a kernel entry diffuses it after the others.
proof fn lemma_diffuse_snoc(
    window: Seq<Accumulator>,
    kernel: Seq<KernelEntry>,
    entry: KernelEntry,
    e: Accumulator,
)
    ensures
        diffuse(window, kernel.push(entry), e) == apply_entry(diffuse(window, kernel, e), entry, e),
    decreases kernel.len(),
{
    if kernel.len() == 0 {
        let w2 = apply_entry(window, entry, e);
        assert(kernel.push(entry)[0] == entry);
        assert(kernel.push(entry).drop_first() =~= Seq::<KernelEntry>::empty());
        assert(diffuse(window, kernel.push(entry), e) == diffuse(
            w2,
            Seq::<KernelEntry>::empty(),
            e,
        ));
        assert(diffuse(w2, Seq::<KernelEntry>::empty(), e) == w2);
        assert(diffuse(window, kernel, e) == window);
    } else {
        assert(kernel.push(entry)[0] == kernel[0]);
        assert(kernel.push(entry).drop_first() =~= kernel.drop_first().push(entry));
        assert(diffuse(window, kernel.push(entry), e) == diffuse(
            apply_entry(window, kernel[0], e),
            kernel.drop_first().push(entry),
            e,
        ));
        assert(diffuse(window, kernel, e) == diffuse(
            apply_entry(window, kernel[0], e),
            kernel.drop_first(),
            e,
        ));
        lemma_diffuse_snoc(apply_entry(window, kernel[0], e), kernel.drop_first(), entry, e);
    }
}

/// Ties the state after a step to the head and tail of the output
/// sequence the old state owed.
proof fn lemma_step_outputs<C, Q: Quantizer<C>>(
    pre: &DitherEngine,
    post: &DitherEngine,
    q: &Q,
    pc: C,
    err: Accumulator,
)
    requires
        pre.wf(),
        pre.remaining_spec() > 0,
        pc == q.lookup_spec(pre.window()[0].spec_to_color()),
        err == error_of(q, pre.window()[0].spec_to_color()),
        post.kernel_view() == pre.kernel_view(),
        post.source_view() == pre.source_view(),
        post.fill_spec() == pre.fill_spec(),
        post.remaining_spec() == pre.remaining_spec() - 1,
        post.pos_spec() == if pre.pos_spec() < pre.source_view().len() {
            pre.pos_spec() + 1
        } else {
            pre.pos_spec()
        },
        post.window() == diffuse(
            pre.window().drop_first().push(
                Accumulator::spec_from_color(
                    if pre.pos_spec() < pre.source_view().len() {
                        pre.source_view()[pre.pos_spec()]
                    } else {
                        pre.fill_spec()
                    },
                ),
            ),
            pre.kernel_view(),
            err,
        ),
    ensures
        pc == pre.outputs::<C, Q>(q)[0],
        post.outputs::<C, Q>(q) == pre.outputs::<C, Q>(q).drop_first(),
{
    let src = pre.source_view().skip(pre.pos_spec());
    if pre.pos_spec() < pre.source_view().len() {
        assert(src.len() > 0);
        assert(src[0] == pre.source_view()[pre.pos_spec()]);
        assert(post.source_view().skip(post.pos_spec()) =~= src.drop_first());
    } else {
        assert(src.len() == 0);
        assert(post.source_view().skip(post.pos_spec()) =~= src);
    }
    let full = pre.outputs::<C, Q>(q);
    let rest = post.outputs::<C, Q>(q);
    assert(full == seq![pc] + rest);
    assert(full.drop_first() =~= rest);
}

/// Dithers a whole image: emits exactly one palette color per source
/// color, in the source's row-major order, as the engine's streaming
/// semantics dictate.
pub fn dither<C: Copy, Q: Quantizer<C>>(
    q: &Q,
    width: usize,
    kernel: Vec<KernelEntry>,
    source: Vec<Color>,
    fill: Color,
) -> (r: Result<Vec<C>, ConfigurationError>)
    requires
        q.inv(),
        width < usize::MAX,
    ensures
        width == 0 ==> r == Result::<Vec<C>, ConfigurationError>::Err(
            ConfigurationError::ZeroWidth,
        ),
        width >= 1 && !kernel_valid(kernel@, width as int) ==> r == Result::<
            Vec<C>,
            ConfigurationError,
        >::Err(ConfigurationError::KernelOffsetOutOfRange),
        width >= 1 && kernel_valid(kernel@, width as int) ==> r is Ok && r->Ok_0@
            == dither_full(q, kernel@, source@, width as int, fill) && r->Ok_0@.len()
            == source@.len(),
{
    let ghost kernel0 = kernel@;
    let ghost source0 = source@;
    match DitherEngine::new(width, kernel, source, fill) {
        Err(e) => Err(e),
        Ok(mut engine) => {
            let ghost full = engine.outputs::<C, Q>(q);
            proof {
                assert(engine.source_view().skip(engine.pos_spec()) =~= source0.skip(
                    if source0.len() < width + 1 {
                        source0.len() as int
                    } else {
                        width + 1
                    },
                ));
                lemma_dither_seq_len(
                    q,
                    engine.kernel_view(),
                    engine.window(),
                    engine.source_view().skip(engine.pos_spec()),
                    engine.fill_spec(),
                    engine.remaining_spec() as nat,
                );
            }
            let mut out: Vec<C> = Vec::new();
            while engine.remaining() > 0
                invariant
                    engine.wf(),
                    q.inv(),
                    out@ + engine.outputs::<C, Q>(q) == full,
                    out@.len() + engine.remaining_spec() == full.len(),
                decreases engine.remaining_spec(),
            {
                proof {
                    lemma_dither_seq_len(
                        q,
                        engine.kernel_view(),
                        engine.window(),
                        engine.source_view().skip(engine.pos_spec()),
                        engine.fill_spec(),
                        engine.remaining_spec() as nat,
                    );
                }
                let pc = engine.step(q);
                out.push(pc);
                proof {
                    assert(out@ + engine.outputs::<C, Q>(q) =~= full);
                }
            }
            proof {
                assert(engine.outputs::<C, Q>(q) =~= Seq::<C>::empty());
                assert(out@ =~= full);
            }
            Ok(out)
        },
    }
}

/// A dither run owes exactly `k` output colors.
proof fn lemma_dither_seq_len<C, Q: Quantizer<C>>(
    q: &Q,
    kernel: Seq<KernelEntry>,
    window: Seq<Accumulator>,
    src: Seq<Color>,
    fill: Color,
    k: nat,
)
    ensures
        dither_seq(q, kernel, window, src, fill, k).len() == k,
    decreases k,
{
    if k > 0 {
        let c = window[0].spec_to_color();
        let e = error_of(q, c);
        let next = if src.len() > 0 {
            src[0]
        } else {
            fill
        };
        let w1 = diffuse(window.drop_first().push(Accumulator::spec_from_color(next)), kernel, e);
        let rest = if src.len() > 0 {
            src.drop_first()
        } else {
            src
        };
        lemma_dither_seq_len(q, kernel, w1, rest, fill, (k - 1) as nat);
    }
}


/// The sum of a kernel's weight numerators.
pub open spec fn numerator_sum(kernel: Seq<KernelEntry>) -> int
    decreases kernel.len(),
{
    if kernel.len() == 0 {
        0
    } else {
        kernel[0].1 as int + numerator_sum(kernel.drop_first())
    }
}

/// The total share a channel error `x` diffuses through a kernel: the sum
/// of the floor-divided scaled shares.
pub open spec fn diffused_total(x: int, kernel: Seq<KernelEntry>) -> int
    decreases kernel.len(),
{
    if kernel.len() == 0 {
        0
    } else {
        (x * kernel[0].1 as int) / 16 + diffused_total(x, kernel.drop_first())
    }
}

/// The channel-wise sum of the scaled errors the engine writes into the
/// window for one quantized pixel.
pub open spec fn scaled_sum(e: Accumulator, kernel: Seq<KernelEntry>) -> (int, int, int)
    decreases kernel.len(),
{
    if kernel.len() == 0 {
        (0, 0, 0)
    } else {
        let s = scaled_error(e, kernel[0].1);
        let rest = scaled_sum(e, kernel.drop_first());
        (s.r as int + rest.0, s.g as int + rest.1, s.b as int + rest.2)
    }
}

/// Flooring division distributes over addition up to one unit.
pub(crate) proof fn lemma_floor_div_add(a: int, b: int)
    ensures
        a / 16 + b / 16 <= (a + b) / 16 <= a / 16 + b / 16 + 1,
{
    vstd::arithmetic::div_mod::lemma_fundamental_div_mod(a, 16);
    vstd::arithmetic::div_mod::lemma_fundamental_div_mod(b, 16);
    vstd::arithmetic::div_mod::lemma_mod_bound(a, 16);
    vstd::arithmetic::div_mod::lemma_mod_bound(b, 16);
    let qa = a / 16;
    let qb = b / 16;
    let ra = a % 16;
    let rb = b % 16;
    if ra + rb < 16 {
        assert(a + b == (qa + qb) * 16 + (ra + rb)) by (nonlinear_arith)
            requires
                a == 16 * qa + ra,
                b == 16 * qb + rb,
        ;
        vstd::arithmetic::div_mod::lemma_fundamental_div_mod_converse(
            a + b,
            16,
            qa + qb,
            ra + rb,
        );
    } else {
        assert(a + b == (qa + qb + 1) * 16 + (ra + rb - 16)) by (nonlinear_arith)
            requires
                a == 16 * qa + ra,
                b == 16 * qb + rb,
        ;
        vstd::arithmetic::div_mod::lemma_fundamental_div_mod_converse(
            a + b,
            16,
            qa + qb + 1,
            ra + rb - 16,
        );
    }
}

/// The diffused shares of a channel never exceed the exact share, and a
/// nonempty kernel loses strictly less than one unit per term.
proof fn lemma_diffused_total_bounds(x: int, kernel: Seq<KernelEntry>)
    ensures
        diffused_total(x, kernel) <= (x * numerator_sum(kernel)) / 16,
        kernel.len() >= 1 ==> diffused_total(x, kernel) > (x * numerator_sum(kernel)) / 16
            - kernel.len(),
        kernel.len() == 0 ==> diffused_total(x, kernel) == 0,
    decreases kernel.len(),
{
    if kernel.len() >= 1 {
        let a = x * kernel[0].1 as int;
        let rest = kernel.drop_first();
        lemma_diffused_total_bounds(x, rest);
        assert(x * numerator_sum(kernel) == a + x * numerator_sum(rest)) by (nonlinear_arith)
            requires
                numerator_sum(kernel) == kernel[0].1 as int + numerator_sum(rest),
                a == x * kernel[0].1 as int,
        ;
        lemma_floor_div_add(a, x * numerator_sum(rest));
        if rest.len() == 0 {
            assert(x * numerator_sum(rest) == 0) by (nonlinear_arith)
                requires
                    numerator_sum(rest) == 0,
            ;
            assert((0int) / 16 == 0) by {
                vstd::arithmetic::div_mod::lemma_div_of0(16);
            }
        }
    }
}

/// A small error scaled through one kernel entry is exactly the
/// floor-divided share: the saturating arithmetic stays inactive.
proof fn lemma_scaled_is_share(e: Accumulator, num: u8)
    requires
        -255 <= e.r <= 255,
        -255 <= e.g <= 255,
        -255 <= e.b <= 255,
    ensures
        scaled_error(e, num).r as int == (e.r as int * num as int) / 16,
        scaled_error(e, num).g as int == (e.g as int * num as int) / 16,
        scaled_error(e, num).b as int == (e.b as int * num as int) / 16,
{
    vstd::arithmetic::power2::lemma2_to64();
    assert(-65025 <= e.r as int * num as int <= 65025) by (nonlinear_arith)
        requires
            -255 <= e.r as int <= 255,
            0 <= num as int <= 255,
    ;
    assert(-65025 <= e.g as int * num as int <= 65025) by (nonlinear_arith)
        requires
            -255 <= e.g as int <= 255,
            0 <= num as int <= 255,
    ;
    assert(-65025 <= e.b as int * num as int <= 65025) by (nonlinear_arith)
        requires
            -255 <= e.b as int <= 255,
            0 <= num as int <= 255,
    ;
    lemma_share_in_range(e.r as int * num as int);
    lemma_share_in_range(e.g as int * num as int);
    lemma_share_in_range(e.b as int * num as int);
}

/// The floor-divided share of a bounded product stays bounded.
proof fn lemma_share_in_range(p: int)
    requires
        -65025 <= p <= 65025,
    ensures
        -4065 <= p / 16 <= 4064,
{
    vstd::arithmetic::div_mod::lemma_div_is_ordered(-65025, p, 16);
    vstd::arithmetic::div_mod::lemma_div_is_ordered(p, 65025, 16);
}

/// Law: for any diffusion kernel whose numerators sum to 16, diffusing an
/// error loses nothing but integer truncation. On every channel the shares
/// written into the window add up to at most the error itself and to
/// strictly more than the error minus one unit per kernel term: repeated
/// diffusion introduces no net bias beyond truncation loss.
pub proof fn lemma_kernel_energy_conservation(e: Accumulator, kernel: Seq<KernelEntry>)
    requires
        numerator_sum(kernel) == 16,
        -255 <= e.r <= 255,
        -255 <= e.g <= 255,
        -255 <= e.b <= 255,
    ensures
        e.r - kernel.len() < scaled_sum(e, kernel).0 <= e.r as int,
        e.g - kernel.len() < scaled_sum(e, kernel).1 <= e.g as int,
        e.b - kernel.len() < scaled_sum(e, kernel).2 <= e.b as int,
{
    lemma_scaled_matches_diffused(e, kernel);
    lemma_diffused_total_bounds(e.r as int, kernel);
    lemma_diffused_total_bounds(e.g as int, kernel);
    lemma_diffused_total_bounds(e.b as int, kernel);
    lemma_mul_sixteen(e.r as int);
    lemma_mul_sixteen(e.g as int);
    lemma_mul_sixteen(e.b as int);
}

/// Scaling by 16 and flooring by 16 cancel.
proof fn lemma_mul_sixteen(x: int)
    ensures
        (x * 16) / 16 == x,
{
    vstd::arithmetic::div_mod::lemma_div_multiples_vanish(x, 16);
    vstd::arithmetic::mul::lemma_mul_is_commutative(x, 16);
}

/// The engine's scaled shares equal the floor-divided shares for bounded
/// errors.
proof fn lemma_scaled_matches_diffused(e: Accumulator, kernel: Seq<KernelEntry>)
    requires
        -255 <= e.r <= 255,
        -255 <= e.g <= 255,
        -255 <= e.b <= 255,
    ensures
        scaled_sum(e, kernel).0 == diffused_total(e.r as int, kernel),
        scaled_sum(e, kernel).1 == diffused_total(e.g as int, kernel),
        scaled_sum(e, kernel).2 == diffused_total(e.b as int, kernel),
    decreases kernel.len(),
{
    if kernel.len() > 0 {
        lemma_scaled_is_share(e, kernel[0].1);
        lemma_scaled_matches_diffused(e, kernel.drop_first());
    }
}

/// Whether the quantizer reproduces a color exactly: the centroid of its
/// palette entry is the color itself, so substitution leaves no error.
pub open spec fn zero_error<C, Q: Quantizer<C>>(q: &Q, c: Color) -> bool {
    q.centroid_spec(q.lookup_spec(c)) == (c.r as int, c.g as int, c.b as int)
}

/// An all-zero error diffuses nothing: the window is left untouched.
proof fn lemma_diffuse_zero(window: Seq<Accumulator>, kernel: Seq<KernelEntry>)
    requires
        forall|j: int|
            0 <= j < window.len() ==> 0 <= (#[trigger] window[j]).r <= 255 && 0 <= window[j].g
                <= 255 && 0 <= window[j].b <= 255,
        forall|j: int| 0 <= j < window.len() ==> (#[trigger] window[j]).r >= 0,
    ensures
        diffuse(window, kernel, Accumulator { r: 0, g: 0, b: 0 }) == window,
    decreases kernel.len(),
{
    let zero = Accumulator { r: 0, g: 0, b: 0 };
    if kernel.len() > 0 {
        assert((0int) / 16 == 0) by {
            vstd::arithmetic::div_mod::lemma_div_of0(16);
        }
        vstd::arithmetic::power2::lemma2_to64();
        assert(scaled_error(zero, kernel[0].1).r as int == 0) by {
            assert(0int * kernel[0].1 as int == 0);
            assert(shr_floor(0, 4) == 0) by {
                vstd::arithmetic::div_mod::lemma_div_of0(pow2(4) as int);
            }
        }
        assert(scaled_error(zero, kernel[0].1) == zero);
        let pos = kernel[0].0 - 1;
        if 0 <= pos < window.len() {
            assert(window[pos].spec_add(zero) == window[pos]);
            assert(apply_entry(window, kernel[0], zero) =~= window);
        }
        lemma_diffuse_zero(window, kernel.drop_first());
    }
}

/// One zero-error step of the dither recursion: the head is emitted as its
/// own palette entry and the window slides without perturbation.
proof fn lemma_zero_error_seq<C, Q: Quantizer<C>>(
    q: &Q,
    kernel: Seq<KernelEntry>,
    cs: Seq<Color>,
    src: Seq<Color>,
    fill: Color,
    k: nat,
)
    requires
        cs.len() >= 1,
        k <= cs.len() + src.len(),
        forall|i: int| 0 <= i < k ==> zero_error(q, #[trigger] (cs + src)[i]),
    ensures
        dither_seq(q, kernel, cs.map_values(|c: Color| Accumulator::spec_from_color(c)), src, fill, k)
            == Seq::new(k, |i: int| q.lookup_spec((cs + src)[i])),
    decreases k,
{
    let window = cs.map_values(|c: Color| Accumulator::spec_from_color(c));
    let goal = Seq::new(k, |i: int| q.lookup_spec((cs + src)[i]));
    if k == 0 {
        assert(dither_seq(q, kernel, window, src, fill, k) =~= goal);
    } else {
        let c0 = cs[0];
        assert((cs + src)[0] == c0);
        assert(window[0] == Accumulator::spec_from_color(c0));
        assert(window[0].spec_to_color() == c0);
        let e = error_of(q, c0);
        assert(zero_error(q, c0));
        assert(e == Accumulator { r: 0, g: 0, b: 0 });
        let next = if src.len() > 0 {
            src[0]
        } else {
            fill
        };
        let cs1 = cs.drop_first().push(next);
        assert(window.drop_first().push(Accumulator::spec_from_color(next)) =~= cs1.map_values(
            |c: Color| Accumulator::spec_from_color(c),
        ));
        lemma_diffuse_zero(
            cs1.map_values(|c: Color| Accumulator::spec_from_color(c)),
            kernel,
        );
        let src1 = if src.len() > 0 {
            src.drop_first()
        } else {
            src
        };
        assert forall|i: int| 0 <= i < k - 1 implies zero_error(
            q,
            #[trigger] (cs1 + src1)[i],
        ) by {
            if src.len() > 0 {
                assert((cs1 + src1)[i] == (cs + src)[i + 1]);
            } else {
                assert(i < cs.len() - 1);
                assert((cs1 + src1)[i] == cs[i + 1]);
                assert((cs + src)[i + 1] == cs[i + 1]);
            }
        }
        lemma_zero_error_seq(q, kernel, cs1, src1, fill, (k - 1) as nat);
        assert forall|i: int| 0 <= i < k implies #[trigger] goal[i] == (seq![
            q.lookup_spec(c0),
        ] + Seq::new((k - 1) as nat, |i: int| q.lookup_spec((cs1 + src1)[i])))[i] by {
            if i > 0 {
                if src.len() > 0 {
                    assert((cs1 + src1)[i - 1] == (cs + src)[i]);
                } else {
                    assert((cs1 + src1)[i - 1] == cs[i]);
                    assert((cs + src)[i] == cs[i]);
                }
            }
        }
        assert(dither_seq(q, kernel, window, src, fill, k) =~= goal);
    }
}

/// Law: an image made only of colors the quantizer reproduces exactly
/// passes through the engine unchanged, pixel for pixel, as the colors'
/// own palette entries: every quantization error is exactly zero and no
/// slot is perturbed.
pub proof fn lemma_exact_image_identity<C, Q: Quantizer<C>>(
    q: &Q,
    kernel: Seq<KernelEntry>,
    src: Seq<Color>,
    width: int,
    fill: Color,
)
    requires
        width >= 1,
        forall|i: int| 0 <= i < src.len() ==> zero_error(q, #[trigger] src[i]),
    ensures
        dither_full(q, kernel, src, width, fill) == Seq::new(
            src.len(),
            |i: int| q.lookup_spec(src[i]),
        ),
{
    let cap = width + 1;
    let cs = Seq::new(cap as nat, |i: int| if i < src.len() { src[i] } else { fill });
    let consumed = if src.len() < cap { src.len() as int } else { cap };
    let rest = src.skip(consumed);
    assert(primed(src, cap, fill) =~= cs.map_values(
        |c: Color| Accumulator::spec_from_color(c),
    ));
    assert forall|i: int| 0 <= i < src.len() implies #[trigger] (cs + rest)[i] == src[i] by {
        if i >= cap {
            assert((cs + rest)[i] == rest[i - cap]);
        }
    }
    lemma_zero_error_seq(q, kernel, cs, rest, fill, src.len());
    assert(Seq::new(src.len(), |i: int| q.lookup_spec((cs + rest)[i])) =~= Seq::new(
        src.len(),
        |i: int| q.lookup_spec(src[i]),
    ));
}

/// Law: a uniform image of a color the quantizer reproduces exactly
/// dithers to that color's palette entry at every pixel, for any width;
/// with no error to diffuse, no neighbor is ever perturbed.
pub proof fn lemma_uniform_image_constant<C, Q: Quantizer<C>>(
    q: &Q,
    kernel: Seq<KernelEntry>,
    c: Color,
    height: nat,
    width: int,
    fill: Color,
)
    requires
        width >= 1,
        zero_error(q, c),
    ensures
        dither_full(q, kernel, Seq::new(height, |i: int| c), width, fill) == Seq::new(
            height,
            |i: int| q.lookup_spec(c),
        ),
{
    let src = Seq::new(height, |i: int| c);
    lemma_exact_image_identity(q, kernel, src, width, fill);
    assert(Seq::new(src.len(), |i: int| q.lookup_spec(src[i])) =~= Seq::new(
        height,
        |i: int| q.lookup_spec(c),
    ));
}


/// Law: an image composed only of exact palette colors, dithered against
/// that same palette, is reproduced unchanged: each pixel's palette entry
/// is the pixel itself and its quantization error is exactly zero.
pub proof fn lemma_palette_image_unchanged<Q: Quantizer<Color>>(
    q: &Q,
    kernel: Seq<KernelEntry>,
    src: Seq<Color>,
    width: int,
    fill: Color,
)
    requires
        width >= 1,
        forall|i: int| 0 <= i < src.len() ==> zero_error(q, #[trigger] src[i]),
        forall|i: int| 0 <= i < src.len() ==> q.lookup_spec(#[trigger] src[i]) == src[i],
    ensures
        dither_full(q, kernel, src, width, fill) == src,
{
    lemma_exact_image_identity(q, kernel, src, width, fill);
    assert(Seq::new(src.len(), |i: int| q.lookup_spec(src[i])) =~= src);
}

} // verus!
