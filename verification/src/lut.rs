//! Descriptors of 3D LUT processing: interpolation, cube sizes, colour spaces, file
//! formats and their extensions, GPU hints, blend modes and cache statistics.

use vstd::prelude::*;

verus! {

/// Interpolation method for 3D LUT lookups.
#[derive(Clone, Copy, Debug, PartialEq, Eq)]
pub enum LutInterpolation {
    /// Nearest neighbor (no interpolation).
    Nearest,
    /// Trilinear interpolation (fast, good quality).
    Trilinear,
    /// Tetrahedral interpolation (slower, better quality).
    Tetrahedral,
}

impl Default for LutInterpolation {
    fn default() -> (i: Self)
        ensures
            i == LutInterpolation::Trilinear,
    {
        LutInterpolation::Trilinear
    }
}

/// Standard LUT cube sizes.
#[derive(Clone, Copy, Debug, PartialEq, Eq)]
pub enum LutSize {
    /// 17x17x17 cube (common for fast preview).
    Size17,
    /// 33x33x33 cube (good balance).
    Size33,
    /// 65x65x65 cube (high quality).
    Size65,
    /// Custom size.
    Custom(usize),
}

/// The edge length of a cube size.
pub open spec fn spec_lut_size(s: LutSize) -> usize {
    match s {
        LutSize::Size17 => 17,
        LutSize::Size33 => 33,
        LutSize::Size65 => 65,
        LutSize::Custom(n) => n,
    }
}

/// The cube size of an edge length: the named sizes for 17, 33 and 65.
pub open spec fn spec_lut_size_of(n: usize) -> LutSize {
    if n == 17 {
        LutSize::Size17
    } else if n == 33 {
        LutSize::Size33
    } else if n == 65 {
        LutSize::Size65
    } else {
        LutSize::Custom(n)
    }
}

impl LutSize {
    /// Get the size as a usize.
    pub fn as_usize(&self) -> (n: usize)
        ensures
            n == spec_lut_size(*self),
    {
        match self {
            LutSize::Size17 => 17,
            LutSize::Size33 => 33,
            LutSize::Size65 => 65,
            LutSize::Custom(size) => *size,
        }
    }

    /// Create from a usize.
    pub fn from_usize(size: usize) -> (s: Self)
        ensures
            s == spec_lut_size_of(size),
    {
        match size {
            17 => LutSize::Size17,
            33 => LutSize::Size33,
            65 => LutSize::Size65,
            _ => LutSize::Custom(size),
        }
    }
}

impl Default for LutSize {
    fn default() -> (s: Self)
        ensures
            s == LutSize::Size33,
    {
        LutSize::Size33
    }
}

/// Every edge length survives the trip through a cube size, and every cube size
/// whose edge is not spelled as a custom 17, 33 or 65 survives the trip through its
/// edge length.
pub proof fn lemma_lut_size_roundtrip(n: usize, s: LutSize)
    ensures
        spec_lut_size(spec_lut_size_of(n)) == n,
        !(s matches LutSize::Custom(k) && (k == 17 || k == 33 || k == 65)) ==> spec_lut_size_of(
            spec_lut_size(s),
        ) == s,
{
}

/// Color space for LUT processing.
#[derive(Clone, Copy, Debug, PartialEq, Eq)]
pub enum LutColorSpace {
    /// Linear RGB [0.0, 1.0].
    Linear,
    /// Log space (Cineon/DPX).
    Log,
    /// Log-C (ARRI).
    LogC,
    /// S-Log3 (Sony).
    SLog3,
    /// V-Log (Panasonic).
    VLog,
}

impl Default for LutColorSpace {
    fn default() -> (c: Self)
        ensures
            c == LutColorSpace::Linear,
    {
        LutColorSpace::Linear
    }
}

/// LUT file format.
#[derive(Clone, Copy, Debug, PartialEq, Eq)]
pub enum LutFormat {
    /// .cube format (Adobe/DaVinci Resolve).
    Cube,
    /// .3dl format (Autodesk/Lustre).
    Threedl,
    /// .csp format (Cinespace).
    Csp,
    /// CSV format.
    Csv,
}

/// `c` with ASCII capitals made lower case.
pub open spec fn ascii_lower(c: char) -> char {
    if 'A' <= c && c <= 'Z' {
        ((c as u32) + 32) as char
    } else {
        c
    }
}

/// Whether `s` equals `t` once its ASCII capitals are made lower case (`t` being
/// lower case ASCII).
pub open spec fn eq_ignore_case(s: Seq<char>, t: Seq<char>) -> bool {
    s.len() == t.len() && forall|i: int| 0 <= i < s.len() ==> ascii_lower(#[trigger] s[i]) == t[i]
}

/// The format of a file extension, compared without regard to case.
pub open spec fn spec_format_of_extension(ext: Seq<char>) -> Option<LutFormat> {
    if eq_ignore_case(ext, seq!['c', 'u', 'b', 'e']) {
        Some(LutFormat::Cube)
    } else if eq_ignore_case(ext, seq!['3', 'd', 'l']) {
        Some(LutFormat::Threedl)
    } else if eq_ignore_case(ext, seq!['c', 's', 'p']) {
        Some(LutFormat::Csp)
    } else if eq_ignore_case(ext, seq!['c', 's', 'v']) {
        Some(LutFormat::Csv)
    } else {
        None
    }
}

/// Whether `ext` spells `target` (lower case ASCII) regardless of the case of its
/// letters.
fn matches_ignore_case(ext: &str, target: &str) -> (b: bool)
    ensures
        b == eq_ignore_case(ext@, target@),
{
    let n = ext.unicode_len();
    if n != target.unicode_len() {
        return false;
    }
    let mut i: usize = 0;
    while i < n
        invariant
            n == ext@.len(),
            n == target@.len(),
            i <= n,
            forall|j: int| 0 <= j < i ==> ascii_lower(#[trigger] ext@[j]) == target@[j],
        decreases n - i,
    {
        let c = ext.get_char(i);
        let lower = if 'A' <= c && c <= 'Z' {
            ((c as u8) + 32) as char
        } else {
            c
        };
        if lower != target.get_char(i) {
            return false;
        }
        i += 1;
    }
    true
}

impl LutFormat {
    /// Detect format from a file extension (the part of a path after the last
    /// dot), without regard to case.
    pub fn from_extension(ext: &str) -> (f: Option<Self>)
        ensures
            f == spec_format_of_extension(ext@),
    {
        proof {
            reveal_strlit("cube");
            reveal_strlit("3dl");
            reveal_strlit("csp");
            reveal_strlit("csv");
            assert("cube"@ =~= seq!['c', 'u', 'b', 'e']);
            assert("3dl"@ =~= seq!['3', 'd', 'l']);
            assert("csp"@ =~= seq!['c', 's', 'p']);
            assert("csv"@ =~= seq!['c', 's', 'v']);
        }
        if matches_ignore_case(ext, "cube") {
            Some(LutFormat::Cube)
        } else if matches_ignore_case(ext, "3dl") {
            Some(LutFormat::Threedl)
        } else if matches_ignore_case(ext, "csp") {
            Some(LutFormat::Csp)
        } else if matches_ignore_case(ext, "csv") {
            Some(LutFormat::Csv)
        } else {
            None
        }
    }
}

/// GPU acceleration hints for 3D LUT processing.
/// These can be used by GPU backends to optimize LUT application.
#[derive(Clone, Copy, Debug)]
pub struct GpuLutHints {
    /// Whether to use GPU texture for LUT storage.
    pub use_texture_3d: bool,
    /// Prefer compute shader over fragment shader.
    pub prefer_compute: bool,
    /// Cache LUT on GPU.
    pub cache_on_gpu: bool,
}

impl Default for GpuLutHints {
    fn default() -> (h: Self)
        ensures
            h.use_texture_3d,
            !h.prefer_compute,
            h.cache_on_gpu,
    {
        GpuLutHints { use_texture_3d: true, prefer_compute: false, cache_on_gpu: true }
    }
}

/// Blend modes for LUT mixing.
#[derive(Clone, Copy, Debug, PartialEq, Eq)]
pub enum LutBlendMode {
    /// Normal blending.
    Normal,
    /// Multiply blending.
    Multiply,
    /// Screen blending.
    Screen,
    /// Overlay blending.
    Overlay,
    /// Additive blending.
    Add,
    /// Subtractive blending.
    Subtract,
}

/// Cache statistics.
#[derive(Clone, Copy, Debug)]
pub struct CacheStats {
    /// Number of cached entries.
    pub entries: usize,
    /// Maximum cache size.
    pub max_size: usize,
}

/// Cache of loaded LUTs by path, holding at most `max_size` of them (but for one
/// when `max_size` is 0); when full, the oldest is evicted to make room.
pub struct LutCache<V> {
    /// Cached LUTs by path, oldest first.
    entries: Vec<(String, V)>,
    /// Maximum cache size.
    max_size: usize,
}

impl<V> LutCache<V> {
    /// The cached paths and LUTs, oldest first.
    pub closed spec fn entries_view(&self) -> Seq<(Seq<char>, V)> {
        self.entries@.map_values(|e: (String, V)| (e.0@, e.1))
    }

    /// The maximum number of cached LUTs.
    pub closed spec fn capacity(&self) -> nat {
        self.max_size as nat
    }

    /// No path is cached twice, and the cache is not over its size (a cache of size 0
    /// holds the one LUT last loaded).
    #[verifier::type_invariant]
    closed spec fn wf(&self) -> bool {
        &&& forall|i: int, j: int|
            0 <= i < j < self.entries_view().len() ==> #[trigger] self.entries_view()[i].0 != #[trigger] self.entries_view()[j].0
        &&& self.entries_view().len() <= if self.capacity() == 0 {
            1
        } else {
            self.capacity()
        }
    }

    /// Position of `path` among the cached entries, if cached.
    pub open spec fn position_of(&self, path: Seq<char>) -> Option<int> {
        if exists|i: int| 0 <= i < self.entries_view().len() && #[trigger] self.entries_view()[i].0 == path {
            Some(choose|i: int| 0 <= i < self.entries_view().len() && #[trigger] self.entries_view()[i].0 == path)
        } else {
            None
        }
    }

    /// Create a new LUT cache.
    pub fn new(max_size: usize) -> (c: Self)
        ensures
            c.entries_view() == Seq::<(Seq<char>, V)>::empty(),
            c.capacity() == max_size,
    {
        let c = LutCache { entries: Vec::new(), max_size };
        proof {
            assert(c.entries_view() =~= Seq::<(Seq<char>, V)>::empty());
        }
        c
    }

    fn find(&self, path: &str) -> (r: Option<usize>)
        ensures
            match r {
                Some(i) => i < self.entries_view().len() && self.entries_view()[i as int].0 == path@,
                None => forall|i: int| 0 <= i < self.entries_view().len() ==> self.entries_view()[i].0 != path@,
            },
    {
        let key = path.to_owned();
        let mut i: usize = 0;
        while i < self.entries.len()
            invariant
                i <= self.entries@.len(),
                key@ == path@,
                forall|j: int| 0 <= j < i ==> self.entries_view()[j].0 != path@,
            decreases self.entries@.len() - i,
        {
            if self.entries[i].0 == key {
                return Some(i);
            }
            i += 1;
        }
        None
    }

    /// The cached LUT of `path`, if any.
    pub fn get(&self, path: &str) -> (r: Option<&V>)
        ensures
            match self.position_of(path@) {
                Some(i) => r == Some(&self.entries_view()[i].1),
                None => r is None,
            },
    {
        proof {
            use_type_invariant(self);
        }
        match self.find(path) {
            Some(i) => {
                proof {
                    let k = choose|k: int| 0 <= k < self.entries_view().len() && #[trigger] self.entries_view()[k].0 == path@;
                    assert(0 <= i < self.entries_view().len() && self.entries_view()[i as int].0 == path@);
                    assert(k == i);
                }
                Some(&self.entries[i].1)
            },
            None => None,
        }
    }

    /// Cache the LUT loaded from `path`: it replaces the one cached for `path`;
    /// otherwise, when the cache is full, the oldest LUT is evicted and the new one
    /// comes last.
    pub fn insert(&mut self, path: &str, lut: V)
        ensures
            final(self).capacity() == old(self).capacity(),
            final(self).entries_view().len() <= if final(self).capacity() == 0 {
                1
            } else {
                final(self).capacity()
            },
            forall|i: int, j: int|
                0 <= i < j < final(self).entries_view().len() ==> #[trigger] final(self).entries_view()[i].0
                    != #[trigger] final(self).entries_view()[j].0,
            final(self).position_of(path@) matches Some(i) && final(self).entries_view()[i].1 == lut,
            match old(self).position_of(path@) {
                Some(i) => final(self).entries_view() == old(self).entries_view().update(i, (path@, lut)),
                None => final(self).entries_view() == (if old(self).entries_view().len() >= old(self).capacity()
                    && old(self).entries_view().len() > 0 {
                    old(self).entries_view().drop_first()
                } else {
                    old(self).entries_view()
                }).push((path@, lut)),
            },
    {
        proof {
            use_type_invariant(&*self);
        }
        let ghost before = self.entries_view();
        let found = self.find(path);
        let max_size = self.max_size;
        let mut entries: Vec<(String, V)> = Vec::new();
        std::mem::swap(&mut entries, &mut self.entries);
        match found {
            Some(i) => {
                proof {
                    let k = choose|k: int| 0 <= k < before.len() && #[trigger] before[k].0 == path@;
                    assert(0 <= i < before.len() && before[i as int].0 == path@);
                    assert(k == i);
                }
                let key = path.to_owned();
                let mut rest = entries.split_off(i);
                let _ = rest.remove(0);
                entries.push((key, lut));
                entries.append(&mut rest);
                proof {
                    assert(entries@.map_values(|e: (String, V)| (e.0@, e.1)) =~= before.update(i as int, (path@, lut)));
                }
            },
            None => {
                if entries.len() >= max_size && entries.len() > 0 {
                    let _ = entries.remove(0);
                    proof {
                        assert(entries@.map_values(|e: (String, V)| (e.0@, e.1)) =~= before.drop_first());
                    }
                }
                let ghost kept = entries@.map_values(|e: (String, V)| (e.0@, e.1));
                entries.push((path.to_owned(), lut));
                proof {
                    assert(entries@.map_values(|e: (String, V)| (e.0@, e.1)) =~= kept.push((path@, lut)));
                }
            },
        }
        self.entries = entries;
        proof {
            use_type_invariant(&*self);
            let ev = self.entries_view();
            let w = match found {
                Some(i) => i as int,
                None => ev.len() - 1,
            };
            assert(0 <= w < ev.len() && ev[w].0 == path@ && ev[w].1 == lut);
            let k = choose|k: int| 0 <= k < ev.len() && #[trigger] ev[k].0 == path@;
            if k != w {
                if k < w {
                    assert(ev[k].0 != ev[w].0);
                } else {
                    assert(ev[w].0 != ev[k].0);
                }
            }
        }
    }

    /// Clear the cache.
    pub fn clear(&mut self)
        ensures
            final(self).entries_view() == Seq::<(Seq<char>, V)>::empty(),
            final(self).capacity() == old(self).capacity(),
    {
        self.entries = Vec::new();
        proof {
            assert(self.entries_view() =~= Seq::<(Seq<char>, V)>::empty());
        }
    }

    /// Get cache statistics.
    pub fn stats(&self) -> (s: CacheStats)
        ensures
            s.entries == self.entries_view().len(),
            s.max_size == self.capacity(),
            s.entries <= if s.max_size == 0 {
                1
            } else {
                s.max_size
            },
    {
        proof {
            use_type_invariant(self);
        }
        CacheStats { entries: self.entries.len(), max_size: self.max_size }
    }
}

impl<V> Default for LutCache<V> {
    fn default() -> (c: Self)
        ensures
            c.entries_view() == Seq::<(Seq<char>, V)>::empty(),
            c.capacity() == 10,
    {
        Self::new(10)
    }
}

/// Color channel identifier.
#[derive(Clone, Copy, Debug, PartialEq, Eq)]
pub enum ColorChannel {
    /// Red channel.
    Red,
    /// Green channel.
    Green,
    /// Blue channel.
    Blue,
    /// Luminance (grayscale).
    Luminance,
}

} // verus!
