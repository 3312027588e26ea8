//! An ordered table mapping brightness levels to glyphs, with
//! nearest-brightness lookup.

use vstd::prelude::*;

verus! {

/// One palette entry: a printable glyph and the brightness it stands for.
#[derive(Clone, Copy, PartialEq, Eq, Debug)]
pub struct PaletteEntry {
    pub glyph: char,
    pub brightness: u8,
}

/// Absolute distance between an entry brightness `b` and a lookup value `v`.
pub open spec fn brightness_dist(b: int, v: int) -> int {
    if v >= b {
        v - b
    } else {
        b - v
    }
}

/// The index a single left-to-right scan with a strictly-less comparison
/// settles on: the earliest entry at minimal distance to `v`.
pub open spec fn nearest_idx(entries: Seq<PaletteEntry>, v: int) -> int
    decreases entries.len(),
{
    if entries.len() <= 1 {
        0
    } else {
        let j = nearest_idx(entries.drop_last(), v);
        if brightness_dist(entries.last().brightness as int, v) < brightness_dist(
            entries[j].brightness as int,
            v,
        ) {
            entries.len() - 1
        } else {
            j
        }
    }
}

/// Nearest-brightness lookup is total on a non-empty palette and breaks ties
/// toward the earlier-declared entry: the chosen index is in range, its
/// distance to `v` is minimal over the whole table, and every entry declared
/// before it lies strictly farther from `v`.
pub proof fn lemma_nearest_total_and_tiebreak(entries: Seq<PaletteEntry>, v: int)
    requires
        entries.len() > 0,
    ensures
        0 <= nearest_idx(entries, v) < entries.len(),
        forall|j: int|
            0 <= j < entries.len() ==> brightness_dist(
                entries[nearest_idx(entries, v)].brightness as int,
                v,
            ) <= #[trigger] brightness_dist(entries[j].brightness as int, v),
        forall|j: int|
            0 <= j < nearest_idx(entries, v) ==> #[trigger] brightness_dist(
                entries[j].brightness as int,
                v,
            ) > brightness_dist(entries[nearest_idx(entries, v)].brightness as int, v),
    decreases entries.len(),
{
    if entries.len() > 1 {
        lemma_nearest_total_and_tiebreak(entries.drop_last(), v);
        assert(forall|j: int|
            0 <= j < entries.len() - 1 ==> entries.drop_last()[j] == entries[j]);
    }
}

/// The eight-level light-to-dark glyph scale with brightness breakpoints
/// 255, 219, 182, 146, 109, 73, 36, 0. The glyph `'0'` stands for a blank
/// position on a typewriter.
pub open spec fn classic_entries() -> Seq<PaletteEntry> {
    seq![
        PaletteEntry { glyph: '0', brightness: 255 },
        PaletteEntry { glyph: '.', brightness: 219 },
        PaletteEntry { glyph: ':', brightness: 182 },
        PaletteEntry { glyph: ';', brightness: 146 },
        PaletteEntry { glyph: 'I', brightness: 109 },
        PaletteEntry { glyph: 'V', brightness: 73 },
        PaletteEntry { glyph: 'N', brightness: 36 },
        PaletteEntry { glyph: 'M', brightness: 0 },
    ]
}

/// The banded variant of the same glyph scale: eight equal-width 32-unit
/// bands over an inverted brightness axis, each entry placed at the centre
/// of its band (band `k` covers values `224 - 32*k ..= 255 - 32*k`, centre
/// `239 - 32*k`).
pub open spec fn banded_entries() -> Seq<PaletteEntry> {
    seq![
        PaletteEntry { glyph: '0', brightness: 239 },
        PaletteEntry { glyph: '.', brightness: 207 },
        PaletteEntry { glyph: ':', brightness: 175 },
        PaletteEntry { glyph: ';', brightness: 143 },
        PaletteEntry { glyph: 'I', brightness: 111 },
        PaletteEntry { glyph: 'V', brightness: 79 },
        PaletteEntry { glyph: 'N', brightness: 47 },
        PaletteEntry { glyph: 'M', brightness: 15 },
    ]
}

/// An ordered, pluggable glyph table. Lookup is brightness-distance based;
/// the order only decides ties (earlier entries win).
pub struct Palette {
    entries: Vec<PaletteEntry>,
}

impl View for Palette {
    type V = Seq<PaletteEntry>;

    closed spec fn view(&self) -> Seq<PaletteEntry> {
        self.entries@
    }
}

impl Palette {
    /// A usable palette has at least one entry.
    pub open spec fn wf(&self) -> bool {
        self@.len() > 0
    }

    /// Wraps an arbitrary ordered entry table.
    pub fn from_entries(entries: Vec<PaletteEntry>) -> (p: Palette)
        ensures
            p@ == entries@,
    {
        Palette { entries }
    }

    pub fn len(&self) -> (n: usize)
        ensures
            n == self@.len(),
    {
        self.entries.len()
    }

    /// The classic eight-level scale (see [`classic_entries`]).
    pub fn classic() -> (p: Palette)
        ensures
            p@ == classic_entries(),
            p.wf(),
    {
        let mut entries: Vec<PaletteEntry> = Vec::new();
        entries.push(PaletteEntry { glyph: '0', brightness: 255 });
        entries.push(PaletteEntry { glyph: '.', brightness: 219 });
        entries.push(PaletteEntry { glyph: ':', brightness: 182 });
        entries.push(PaletteEntry { glyph: ';', brightness: 146 });
        entries.push(PaletteEntry { glyph: 'I', brightness: 109 });
        entries.push(PaletteEntry { glyph: 'V', brightness: 73 });
        entries.push(PaletteEntry { glyph: 'N', brightness: 36 });
        entries.push(PaletteEntry { glyph: 'M', brightness: 0 });
        proof {
            assert(entries@ =~= classic_entries());
        }
        Palette { entries }
    }

    /// The banded eight-level scale (see [`banded_entries`]).
    pub fn banded() -> (p: Palette)
        ensures
            p@ == banded_entries(),
            p.wf(),
    {
        let mut entries: Vec<PaletteEntry> = Vec::new();
        entries.push(PaletteEntry { glyph: '0', brightness: 239 });
        entries.push(PaletteEntry { glyph: '.', brightness: 207 });
        entries.push(PaletteEntry { glyph: ':', brightness: 175 });
        entries.push(PaletteEntry { glyph: ';', brightness: 143 });
        entries.push(PaletteEntry { glyph: 'I', brightness: 111 });
        entries.push(PaletteEntry { glyph: 'V', brightness: 79 });
        entries.push(PaletteEntry { glyph: 'N', brightness: 47 });
        entries.push(PaletteEntry { glyph: 'M', brightness: 15 });
        proof {
            assert(entries@ =~= banded_entries());
        }
        Palette { entries }
    }

    /// The glyph and brightness of the entry nearest to `value`, the earliest
    /// such entry on a tie. Total: defined for every `i32` value.
    pub fn nearest(&self, value: i32) -> (r: (char, u8))
        requires
            self.wf(),
        ensures
            r.0 == self@[nearest_idx(self@, value as int)].glyph,
            r.1 == self@[nearest_idx(self@, value as int)].brightness,
    {
        let mut best: usize = 0;
        let mut best_dist: i64 = brightness_dist_exec(self.entries[0].brightness, value);
        let mut i: usize = 1;
        while i < self.entries.len()
            invariant
                self.wf(),
                1 <= i <= self@.len(),
                best < i,
                best == nearest_idx(self@.take(i as int), value as int),
                best_dist == brightness_dist(self@[best as int].brightness as int, value as int),
            decreases self@.len() - i,
        {
            let d = brightness_dist_exec(self.entries[i].brightness, value);
            proof {
                assert(self@.take(i + 1).drop_last() =~= self@.take(i as int));
                assert(self@.take(i + 1).last() == self@[i as int]);
            }
            if d < best_dist {
                best = i;
                best_dist = d;
            }
            i = i + 1;
        }
        proof {
            assert(self@.take(self@.len() as int) =~= self@);
        }
        (self.entries[best].glyph, self.entries[best].brightness)
    }
}

/// Absolute distance between an entry brightness and a lookup value.
fn brightness_dist_exec(b: u8, v: i32) -> (d: i64)
    ensures
        d == brightness_dist(b as int, v as int),
{
    let bw = b as i64;
    let vw = v as i64;
    if vw >= bw {
        vw - bw
    } else {
        bw - vw
    }
}

/// The glyph of the classic palette entry nearest to `value`, together with
/// that entry's brightness; ties go to the entry declared first.
pub fn find_closest_character(value: i32) -> (r: (char, i32))
    ensures
        r.0 == classic_entries()[nearest_idx(classic_entries(), value as int)].glyph,
        r.1 == classic_entries()[nearest_idx(classic_entries(), value as int)].brightness as i32,
{
    let palette = Palette::classic();
    let (glyph, brightness) = palette.nearest(value);
    (glyph, brightness as i32)
}

} // verus!
