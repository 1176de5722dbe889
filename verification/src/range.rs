//! The range of heights that the resident terrain spans.
//!
//! All chunks share one material, which colours a vertex by where its
//! height lies between the lowest and the highest height seen so far. The
//! range starts empty and only ever widens as chunks arrive.
//!
//! Heights are given as levels: integers that are ordered as the heights
//! they stand for. A height that is kept as a sign bit above a 31-bit
//! magnitude, as binary floating-point formats keep it, has the level that
//! [`level_of_bits`] gives.

use vstd::prelude::*;

verus! {

/// A lowest and a highest level.
#[derive(Clone, Copy, Debug, PartialEq, Eq, Structural)]
pub struct Span {
    pub min: i32,
    pub max: i32,
}

/// Lowest and highest level seen so far; `None` before the first chunk.
#[derive(Clone, Copy, Debug, PartialEq, Eq, Structural)]
pub struct HeightRange {
    pub bounds: Option<Span>,
}

/// The lower of two levels.
pub open spec fn lower(a: i32, b: i32) -> i32 {
    if a <= b {
        a
    } else {
        b
    }
}

/// The higher of two levels.
pub open spec fn higher(a: i32, b: i32) -> i32 {
    if a >= b {
        a
    } else {
        b
    }
}

/// The number that a 32-bit pattern of a sign bit above a magnitude
/// stands for, up to a factor: the magnitude, negative where the sign bit
/// is set.
pub open spec fn sign_magnitude(bits: u32) -> int {
    if bits < 0x8000_0000 {
        bits as int
    } else {
        -(bits - 0x8000_0000)
    }
}

/// The level of a sign-and-magnitude pattern.
pub open spec fn spec_level_of_bits(bits: u32) -> i32 {
    if bits < 0x8000_0000 {
        bits as i32
    } else {
        (0x7fff_ffff - bits) as i32
    }
}

/// The sign-and-magnitude pattern of a level.
pub open spec fn spec_bits_of_level(level: i32) -> u32 {
    if level >= 0 {
        level as u32
    } else {
        (0x7fff_ffff - level) as u32
    }
}

/// Computes the level of a sign-and-magnitude pattern.
pub fn level_of_bits(bits: u32) -> (level: i32)
    ensures
        level == spec_level_of_bits(bits),
{
    if bits < 0x8000_0000 {
        bits as i32
    } else {
        (0x7fff_ffff - bits as i64) as i32
    }
}

/// Computes the sign-and-magnitude pattern of a level.
pub fn bits_of_level(level: i32) -> (bits: u32)
    ensures
        bits == spec_bits_of_level(level),
{
    if level >= 0 {
        level as u32
    } else {
        (0x7fff_ffff - level as i64) as u32
    }
}

/// Levels and patterns correspond one to one.
pub proof fn lemma_level_round_trip(bits: u32, level: i32)
    ensures
        spec_bits_of_level(spec_level_of_bits(bits)) == bits,
        spec_level_of_bits(spec_bits_of_level(level)) == level,
{
}

/// Levels are ordered as the numbers their patterns stand for; the
/// pattern of negative zero lies just below that of zero.
pub proof fn lemma_level_order(a: u32, b: u32)
    ensures
        sign_magnitude(a) < sign_magnitude(b) ==> spec_level_of_bits(a) < spec_level_of_bits(b),
        spec_level_of_bits(a) < spec_level_of_bits(b) ==> sign_magnitude(a) <= sign_magnitude(b),
        spec_level_of_bits(0x8000_0000) == -1,
        spec_level_of_bits(0) == 0,
{
}

/// Whether `span` is the lowest and the highest of `levels`.
pub open spec fn bounds_of(levels: Seq<i32>, span: Span) -> bool {
    &&& levels.contains(span.min)
    &&& levels.contains(span.max)
    &&& forall|k: int| 0 <= k < levels.len() ==> span.min <= #[trigger] levels[k] <= span.max
}

impl Span {
    /// Finds the lowest and the highest of the levels of a chunk's height
    /// grid; `None` for a grid without heights.
    pub fn of(levels: &Vec<i32>) -> (r: Option<Span>)
        ensures
            r is None == (levels@.len() == 0),
            r matches Some(span) ==> bounds_of(levels@, span),
    {
        if levels.len() == 0 {
            return None;
        }
        let mut span = Span { min: levels[0], max: levels[0] };
        let mut k: usize = 1;
        proof {
            assert(levels@.take(1)[0] == levels@[0]);
        }
        while k < levels.len()
            invariant
                1 <= k <= levels.len(),
                bounds_of(levels@.take(k as int), span),
            decreases levels.len() - k,
        {
            let h = levels[k];
            let ghost prev = span;
            if h < span.min {
                span.min = h;
            }
            if h > span.max {
                span.max = h;
            }
            proof {
                let before = levels@.take(k as int);
                let now = levels@.take(k + 1);
                assert(now =~= before.push(h));
                assert(now[k as int] == h);
                assert forall|x: i32| before.contains(x) implies now.contains(x) by {
                    let i = choose|i: int| 0 <= i < before.len() && before[i] == x;
                    assert(now[i] == x);
                }
                assert(now.contains(span.min) && now.contains(span.max));
                assert forall|i: int| 0 <= i < now.len() implies span.min <= #[trigger] now[i]
                    <= span.max by {
                    if i < k {
                        assert(before[i] == now[i]);
                    }
                }
            }
            k = k + 1;
        }
        proof {
            assert(levels@.take(k as int) =~= levels@);
        }
        Some(span)
    }
}

impl HeightRange {
    /// The range after a chunk spanning `lo` to `hi` has been merged into
    /// `self`.
    pub open spec fn merged(self, lo: i32, hi: i32) -> HeightRange {
        match self.bounds {
            None => HeightRange { bounds: Some(Span { min: lo, max: hi }) },
            Some(s) => HeightRange {
                bounds: Some(Span { min: lower(s.min, lo), max: higher(s.max, hi) }),
            },
        }
    }

    /// Whether level `h` lies in the range.
    pub open spec fn spans(self, h: i32) -> bool {
        match self.bounds {
            None => false,
            Some(s) => s.min <= h <= s.max,
        }
    }

    /// The range before any chunk has arrived.
    pub fn new() -> (r: HeightRange)
        ensures
            r.bounds is None,
    {
        HeightRange { bounds: None }
    }

    /// Merges the levels `lo` to `hi` of a finished chunk into the range:
    /// the first chunk sets the range, every later one can only widen it.
    pub fn absorb(&mut self, lo: i32, hi: i32)
        ensures
            *final(self) == old(self).merged(lo, hi),
    {
        let next: Span = match self.bounds {
            None => Span { min: lo, max: hi },
            Some(s) => Span {
                min: if s.min <= lo {
                    s.min
                } else {
                    lo
                },
                max: if s.max >= hi {
                    s.max
                } else {
                    hi
                },
            },
        };
        self.bounds = Some(next);
    }

    /// Merging never narrows the range: every level it spanned it still
    /// spans, and it spans the levels of the chunk merged in.
    pub proof fn lemma_merge_widens(self, lo: i32, hi: i32, h: i32)
        requires
            self.spans(h) || lo <= h <= hi,
        ensures
            self.merged(lo, hi).spans(h),
    {
    }

    /// The order in which two chunks arrive does not matter.
    pub proof fn lemma_merge_commutes(self, lo1: i32, hi1: i32, lo2: i32, hi2: i32)
        ensures
            self.merged(lo1, hi1).merged(lo2, hi2) == self.merged(lo2, hi2).merged(lo1, hi1),
    {
    }
}

} // verus!
