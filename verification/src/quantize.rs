use vstd::prelude::*;

use crate::color::Color;

verus! {

/// The squared distance between two colors in RGB space.
pub open spec fn dist2(a: Color, b: Color) -> int {
    (a.r as int - b.r as int) * (a.r as int - b.r as int) + (a.g as int - b.g as int) * (
    a.g as int - b.g as int) + (a.b as int - b.b as int) * (a.b as int - b.b as int)
}

/// The capability the dither engine consults once per pixel: given a
/// full-precision color, return the palette entry that stands for it and
/// the color-space error that substitution introduces.
pub trait Quantizer<C> {
    /// The palette entry chosen for a color.
    spec fn lookup_spec(&self, c: Color) -> C;

    /// The centroid recorded for a palette entry, one value per channel.
    spec fn centroid_spec(&self, entry: C) -> (int, int, int);

    /// Whether the quantizer was built consistently.
    spec fn inv(&self) -> bool;

    /// Centroids of reachable entries stay in channel range, so the
    /// per-channel quantization error always fits in an i16.
    proof fn centroid_in_range(&self, c: Color)
        requires
            self.inv(),
        ensures
            0 <= self.centroid_spec(self.lookup_spec(c)).0 <= 255,
            0 <= self.centroid_spec(self.lookup_spec(c)).1 <= 255,
            0 <= self.centroid_spec(self.lookup_spec(c)).2 <= 255,
    ;

    /// Returns the palette entry for `c` together with the per-channel
    /// error `c - centroid(entry)`.
    fn with_error(&self, c: Color) -> (r: (C, (i16, i16, i16)))
        requires
            self.inv(),
        ensures
            r.0 == self.lookup_spec(c),
            r.1.0 as int == c.r as int - self.centroid_spec(r.0).0,
            r.1.1 as int == c.g as int - self.centroid_spec(r.0).1,
            r.1.2 as int == c.b as int - self.centroid_spec(r.0).2,
    ;
}

/// A palette color plus its centroid: the color-space point whose
/// difference from a source color is diffused as quantization error.
pub struct PaletteEntry<C> {
    /// The value the quantizer emits for this entry.
    pub value: C,
    /// The display color of the entry, used for the nearest-entry search.
    pub color: Color,
    /// The centroid recorded for the entry.
    pub centroid: Color,
}

/// A brute-force palette quantizer: a linear scan over the palette picks
/// the entry whose color is nearest by squared distance, earliest entry
/// winning ties.
pub struct PaletteTable<C> {
    pub entries: Vec<PaletteEntry<C>>,
}

/// The index of the entry nearest to `c` among the first `n` entries,
/// earliest entry winning ties.
pub open spec fn nearest_in_prefix<C>(entries: Seq<PaletteEntry<C>>, c: Color, n: int) -> int
    decreases n,
{
    if n <= 1 {
        0
    } else {
        let b = nearest_in_prefix(entries, c, n - 1);
        if dist2(entries[n - 1].color, c) < dist2(entries[b].color, c) {
            n - 1
        } else {
            b
        }
    }
}

/// The centroid of the first entry carrying `value`.
pub open spec fn centroid_of_value<C>(entries: Seq<PaletteEntry<C>>, value: C) -> (int, int, int)
    decreases entries.len(),
{
    if entries.len() == 0 {
        (0, 0, 0)
    } else if entries[0].value == value {
        (entries[0].centroid.r as int, entries[0].centroid.g as int, entries[0].centroid.b as int)
    } else {
        centroid_of_value(entries.drop_first(), value)
    }
}

/// In a palette with pairwise distinct values, the first entry carrying the
/// value of index `i` is index `i` itself.
proof fn lemma_centroid_of_distinct<C>(entries: Seq<PaletteEntry<C>>, i: int)
    requires
        0 <= i < entries.len(),
        forall|p: int, q: int|
            0 <= p < q < entries.len() ==> entries[p].value != entries[q].value,
    ensures
        centroid_of_value(entries, entries[i].value) == (
            entries[i].centroid.r as int,
            entries[i].centroid.g as int,
            entries[i].centroid.b as int,
        ),
    decreases entries.len(),
{
    if i > 0 {
        assert(entries[0].value != entries[i].value);
        lemma_centroid_of_distinct(entries.drop_first(), i - 1);
    }
}

/// The square of a channel difference stays within one color channel's
/// squared range.
proof fn lemma_square_bounded(d: int)
    requires
        -255 <= d <= 255,
    ensures
        0 <= d * d <= 65025,
{
    assert(0 <= d * d <= 65025) by (nonlinear_arith)
        requires
            -255 <= d <= 255,
    ;
}

fn dist2_exec(a: Color, c: Color) -> (r: i32)
    ensures
        r as int == dist2(a, c),
{
    let dr: i32 = a.r as i32 - c.r as i32;
    let dg: i32 = a.g as i32 - c.g as i32;
    let db: i32 = a.b as i32 - c.b as i32;
    proof {
        lemma_square_bounded(dr as int);
        lemma_square_bounded(dg as int);
        lemma_square_bounded(db as int);
    }
    dr * dr + dg * dg + db * db
}

impl<C: Copy> PaletteTable<C> {
    /// Consistency: at least one entry, and no value listed twice.
    pub open spec fn table_inv(&self) -> bool {
        &&& self.entries@.len() >= 1
        &&& forall|p: int, q: int|
            0 <= p < q < self.entries@.len() ==> self.entries@[p].value != self.entries@[q].value
    }
}

impl<C: Copy> Quantizer<C> for PaletteTable<C> {
    open spec fn lookup_spec(&self, c: Color) -> C {
        self.entries@[nearest_in_prefix(self.entries@, c, self.entries@.len() as int)].value
    }

    open spec fn centroid_spec(&self, entry: C) -> (int, int, int) {
        centroid_of_value(self.entries@, entry)
    }

    open spec fn inv(&self) -> bool {
        self.table_inv()
    }

    proof fn centroid_in_range(&self, c: Color) {
        let n = self.entries@.len() as int;
        lemma_nearest_in_bounds(self.entries@, c, n);
        lemma_centroid_of_distinct(self.entries@, nearest_in_prefix(self.entries@, c, n));
    }

    fn with_error(&self, c: Color) -> (r: (C, (i16, i16, i16))) {
        let n = self.entries.len();
        let mut best: usize = 0;
        let mut best_dist: i32 = dist2_exec(self.entries[0].color, c);
        let mut i: usize = 1;
        while i < n
            invariant
                1 <= i <= n,
                n == self.entries@.len(),
                n >= 1,
                best == nearest_in_prefix(self.entries@, c, i as int),
                0 <= best < i,
                best_dist as int == dist2(self.entries@[best as int].color, c),
            decreases n - i,
        {
            let d = dist2_exec(self.entries[i].color, c);
            if d < best_dist {
                best = i;
                best_dist = d;
            }
            i = i + 1;
        }
        let entry = &self.entries[best];
        proof {
            lemma_centroid_of_distinct(self.entries@, best as int);
        }
        let er: i16 = c.r as i16 - entry.centroid.r as i16;
        let eg: i16 = c.g as i16 - entry.centroid.g as i16;
        let eb: i16 = c.b as i16 - entry.centroid.b as i16;
        (entry.value, (er, eg, eb))
    }
}

/// The nearest index among the first `n` entries lies below `n`.
proof fn lemma_nearest_in_bounds<C>(entries: Seq<PaletteEntry<C>>, c: Color, n: int)
    requires
        n >= 1,
    ensures
        0 <= nearest_in_prefix(entries, c, n) < n,
    decreases n,
{
    if n > 1 {
        lemma_nearest_in_bounds(entries, c, n - 1);
    }
}

/// The entry the scan picks is at least as near to `c` as every palette
/// entry, and nearer than every earlier one with equal distance.
pub proof fn lemma_nearest_is_minimal<C>(entries: Seq<PaletteEntry<C>>, c: Color, n: int)
    requires
        n >= 1,
        n <= entries.len(),
    ensures
        forall|j: int|
            0 <= j < n ==> dist2(entries[nearest_in_prefix(entries, c, n)].color, c) <= dist2(
                #[trigger] entries[j].color,
                c,
            ),
    decreases n,
{
    if n > 1 {
        lemma_nearest_is_minimal(entries, c, n - 1);
    }
}

} // verus!
