//! Colour grading descriptors and the colour histogram's bin counting.

use vstd::prelude::*;

verus! {

/// Type of curve interpolation.
#[derive(Clone, Copy, Debug, PartialEq, Eq)]
pub enum CurveInterpolation {
    /// Linear interpolation.
    Linear,
    /// Cubic spline interpolation.
    CubicSpline,
    /// Bezier curve interpolation.
    Bezier,
}

/// Mode for combining multiple qualifiers.
#[derive(Clone, Copy, Debug, PartialEq, Eq)]
pub enum QualifierCombineMode {
    /// Union (OR) - pixel matches if it matches any qualifier.
    Union,
    /// Intersection (AND) - pixel matches only if it matches all qualifiers.
    Intersection,
    /// Difference - first minus others.
    Difference,
}

/// Color channel for histogram operations.
#[derive(Clone, Copy, Debug, PartialEq, Eq)]
pub enum ColorChannel {
    /// Red channel.
    Red,
    /// Green channel.
    Green,
    /// Blue channel.
    Blue,
    /// Luminance channel.
    Luma,
}

/// Histogram for analyzing color channel distributions.
#[derive(Clone, Debug)]
pub struct ColorHistogram {
    /// Number of bins.
    bins: usize,
    /// Red channel histogram.
    pub red: Vec<u32>,
    /// Green channel histogram.
    pub green: Vec<u32>,
    /// Blue channel histogram.
    pub blue: Vec<u32>,
    /// Luminance histogram.
    pub luma: Vec<u32>,
}

/// The sum of the first `k` counts of `h`.
pub open spec fn prefix_total(h: Seq<u32>, k: nat) -> nat
    decreases k,
{
    if k == 0 || k > h.len() {
        0
    } else {
        prefix_total(h, (k - 1) as nat) + h[k - 1] as nat
    }
}

/// The first bin from `i` on at which the running total of `h` reaches `target`,
/// if any.
pub open spec fn first_reaching_from(h: Seq<u32>, target: nat, i: nat) -> Option<nat>
    decreases h.len() - i,
{
    if i >= h.len() {
        None
    } else if prefix_total(h, i + 1) >= target {
        Some(i)
    } else {
        first_reaching_from(h, target, i + 1)
    }
}

/// The first bin at which the running total of `h` reaches `target`, if any.
pub open spec fn first_reaching(h: Seq<u32>, target: nat) -> Option<nat> {
    first_reaching_from(h, target, 0)
}

proof fn lemma_prefix_total_monotone(h: Seq<u32>, a: nat, b: nat)
    requires
        a <= b <= h.len(),
    ensures
        prefix_total(h, a) <= prefix_total(h, b),
    decreases b - a,
{
    if a < b {
        lemma_prefix_total_monotone(h, a, (b - 1) as nat);
    }
}

impl ColorHistogram {
    /// The number of bins.
    pub closed spec fn spec_bins(&self) -> nat {
        self.bins as nat
    }

    /// The counts of a channel.
    pub closed spec fn channel(&self, channel: ColorChannel) -> Seq<u32> {
        match channel {
            ColorChannel::Red => self.red@,
            ColorChannel::Green => self.green@,
            ColorChannel::Blue => self.blue@,
            ColorChannel::Luma => self.luma@,
        }
    }

    /// Every channel has one count per bin.
    pub closed spec fn wf(&self) -> bool {
        &&& self.red@.len() == self.spec_bins()
        &&& self.green@.len() == self.spec_bins()
        &&& self.blue@.len() == self.spec_bins()
        &&& self.luma@.len() == self.spec_bins()
    }

    /// Create a new histogram with `bins` empty bins per channel.
    pub fn new(bins: usize) -> (h: Self)
        ensures
            h.wf(),
            h.spec_bins() == bins,
            forall|c: ColorChannel, i: int| 0 <= i < bins ==> #[trigger] h.channel(c)[i] == 0,
    {
        ColorHistogram { bins, red: vec![0; bins], green: vec![0; bins], blue: vec![0; bins], luma: vec![0; bins] }
    }

    /// The number of bins.
    pub fn bins(&self) -> (n: usize)
        ensures
            n == self.spec_bins(),
    {
        self.bins
    }

    /// Clear the histogram: every count becomes 0.
    pub fn clear(&mut self)
        ensures
            final(self).spec_bins() == old(self).spec_bins(),
            forall|c: ColorChannel| (#[trigger] final(self).channel(c)).len() == old(self).channel(c).len(),
            forall|c: ColorChannel, i: int|
                0 <= i < old(self).channel(c).len() ==> #[trigger] final(self).channel(c)[i] == 0,
    {
        zero_fill(&mut self.red);
        zero_fill(&mut self.green);
        zero_fill(&mut self.blue);
        zero_fill(&mut self.luma);
    }

    /// Count one sample whose channels fall in the given bins.
    pub fn add_binned(&mut self, r_bin: usize, g_bin: usize, b_bin: usize, l_bin: usize)
        requires
            old(self).wf(),
            r_bin < old(self).spec_bins(),
            g_bin < old(self).spec_bins(),
            b_bin < old(self).spec_bins(),
            l_bin < old(self).spec_bins(),
            old(self).channel(ColorChannel::Red)[r_bin as int] < u32::MAX,
            old(self).channel(ColorChannel::Green)[g_bin as int] < u32::MAX,
            old(self).channel(ColorChannel::Blue)[b_bin as int] < u32::MAX,
            old(self).channel(ColorChannel::Luma)[l_bin as int] < u32::MAX,
        ensures
            final(self).wf(),
            final(self).spec_bins() == old(self).spec_bins(),
            final(self).channel(ColorChannel::Red) == old(self).channel(ColorChannel::Red).update(
                r_bin as int,
                (old(self).channel(ColorChannel::Red)[r_bin as int] + 1) as u32,
            ),
            final(self).channel(ColorChannel::Green) == old(self).channel(ColorChannel::Green).update(
                g_bin as int,
                (old(self).channel(ColorChannel::Green)[g_bin as int] + 1) as u32,
            ),
            final(self).channel(ColorChannel::Blue) == old(self).channel(ColorChannel::Blue).update(
                b_bin as int,
                (old(self).channel(ColorChannel::Blue)[b_bin as int] + 1) as u32,
            ),
            final(self).channel(ColorChannel::Luma) == old(self).channel(ColorChannel::Luma).update(
                l_bin as int,
                (old(self).channel(ColorChannel::Luma)[l_bin as int] + 1) as u32,
            ),
    {
        let r = self.red[r_bin];
        self.red.set(r_bin, r + 1);
        let g = self.green[g_bin];
        self.green.set(g_bin, g + 1);
        let b = self.blue[b_bin];
        self.blue.set(b_bin, b + 1);
        let l = self.luma[l_bin];
        self.luma.set(l_bin, l + 1);
    }

    /// The counts of a channel.
    pub fn channel_counts(&self, channel: ColorChannel) -> (v: &Vec<u32>)
        ensures
            v@ == self.channel(channel),
    {
        match channel {
            ColorChannel::Red => &self.red,
            ColorChannel::Green => &self.green,
            ColorChannel::Blue => &self.blue,
            ColorChannel::Luma => &self.luma,
        }
    }

    /// The total count of a channel.
    pub fn total(&self, channel: ColorChannel) -> (t: u32)
        requires
            prefix_total(self.channel(channel), self.channel(channel).len()) <= u32::MAX,
        ensures
            t == prefix_total(self.channel(channel), self.channel(channel).len()),
    {
        let h = self.channel_counts(channel);
        let mut sum: u32 = 0;
        let mut i: usize = 0;
        while i < h.len()
            invariant
                h@ == self.channel(channel),
                prefix_total(h@, h@.len()) <= u32::MAX,
                i <= h@.len(),
                sum == prefix_total(h@, i as nat),
            decreases h@.len() - i,
        {
            proof {
                lemma_prefix_total_monotone(h@, (i + 1) as nat, h@.len());
            }
            sum = sum + h[i];
            i += 1;
        }
        sum
    }

    /// The first bin of a channel at which the running count reaches `target`.
    pub fn first_bin_reaching(&self, channel: ColorChannel, target: u32) -> (r: Option<usize>)
        requires
            prefix_total(self.channel(channel), self.channel(channel).len()) <= u32::MAX,
        ensures
            match r {
                Some(i) => first_reaching(self.channel(channel), target as nat) == Some(i as nat),
                None => first_reaching(self.channel(channel), target as nat) is None,
            },
    {
        let h = self.channel_counts(channel);
        let mut acc: u32 = 0;
        let mut i: usize = 0;
        while i < h.len()
            invariant
                h@ == self.channel(channel),
                prefix_total(h@, h@.len()) <= u32::MAX,
                i <= h@.len(),
                acc == prefix_total(h@, i as nat),
                first_reaching(h@, target as nat) == first_reaching_from(h@, target as nat, i as nat),
            decreases h@.len() - i,
        {
            proof {
                lemma_prefix_total_monotone(h@, (i + 1) as nat, h@.len());
            }
            acc = acc + h[i];
            if acc >= target {
                return Some(i);
            }
            i += 1;
        }
        None
    }

    /// The bin of the median of a channel: the first bin at which the running
    /// count reaches half the total; `None` for an empty channel.
    pub fn median_bin(&self, channel: ColorChannel) -> (r: Option<usize>)
        requires
            prefix_total(self.channel(channel), self.channel(channel).len()) <= u32::MAX,
        ensures
            ({
                let h = self.channel(channel);
                let total = prefix_total(h, h.len());
                if total == 0 {
                    r is None
                } else {
                    match r {
                        Some(i) => first_reaching(h, total / 2) == Some(i as nat),
                        None => first_reaching(h, total / 2) is None,
                    }
                }
            }),
    {
        let total = self.total(channel);
        if total == 0 {
            return None;
        }
        self.first_bin_reaching(channel, total / 2)
    }
}

/// Sets every element of `v` to 0.
fn zero_fill(v: &mut Vec<u32>)
    ensures
        final(v)@.len() == old(v)@.len(),
        forall|i: int| 0 <= i < old(v)@.len() ==> #[trigger] final(v)@[i] == 0,
{
    let mut i: usize = 0;
    while i < v.len()
        invariant
            v@.len() == old(v)@.len(),
            i <= v@.len(),
            forall|j: int| 0 <= j < i ==> #[trigger] v@[j] == 0,
        decreases v@.len() - i,
    {
        v.set(i, 0);
        i += 1;
    }
}

} // verus!
