//! The pipeline entry point: checks preconditions, downsamples, dithers and
//! encodes, handing back the glyph grid, the encoded text and the quantized
//! preview raster.

use crate::dither::dither;
use crate::dither::dither_glyph;
use crate::dither::dither_prefix;
use crate::palette::Palette;
use crate::palette::PaletteEntry;
use crate::raster::Raster;
use crate::resample::resample;
use crate::resample::resampled;
use crate::rle::encode_row_text;
use crate::rle::spec_encode;
use crate::rle::spec_render;
use vstd::prelude::*;

verus! {

/// Why the pipeline refused to run: the error taxonomy of the core.
#[derive(Clone, Copy, PartialEq, Eq, Structural, Debug)]
pub enum PipelineError {
    /// A target dimension is zero.
    ZeroTargetDimension,
    /// The palette has no entries.
    EmptyPalette,
    /// A source dimension is smaller than the matching target dimension, so
    /// some source patches would be empty.
    SourceSmallerThanTarget,
}

/// The quantized preview raster: the source downsampled to `tw x th`, then
/// dithered in place over the whole grid.
pub open spec fn target_view(
    src: Seq<u8>,
    sw: int,
    sh: int,
    tw: int,
    th: int,
    pal: Seq<PaletteEntry>,
) -> Seq<u8> {
    dither_prefix(resampled(src, sw, sh, tw, th), tw, th, pal, tw * th)
}

/// The glyph chosen for target cell `(x, y)`.
pub open spec fn glyph_at(
    src: Seq<u8>,
    sw: int,
    sh: int,
    tw: int,
    th: int,
    pal: Seq<PaletteEntry>,
    x: int,
    y: int,
) -> char {
    dither_glyph(resampled(src, sw, sh, tw, th), tw, th, pal, y * tw + x)
}

/// Row `y` of the glyph grid.
pub open spec fn glyph_row(
    src: Seq<u8>,
    sw: int,
    sh: int,
    tw: int,
    th: int,
    pal: Seq<PaletteEntry>,
    y: int,
) -> Seq<char> {
    Seq::new(tw as nat, |x: int| glyph_at(src, sw, sh, tw, th, pal, x, y))
}

/// Everything one pipeline run produces: the glyph grid (one row of glyphs
/// per target row), the run-length-encoded text of each row, and the mutated
/// quantized raster for preview rendering.
#[derive(Debug)]
pub struct AsciiArt {
    pub glyphs: Vec<Vec<char>>,
    pub encoded: Vec<Vec<char>>,
    pub preview: Raster,
}

/// The whole pipeline is a pure function of its inputs: equal source samples
/// give equal resampled rasters, equal quantized previews and equal glyph
/// rows, whatever the dimensions and palette.
pub proof fn lemma_pipeline_deterministic(
    a: Seq<u8>,
    b: Seq<u8>,
    sw: int,
    sh: int,
    tw: int,
    th: int,
    pal: Seq<PaletteEntry>,
    y: int,
)
    requires
        a == b,
    ensures
        resampled(a, sw, sh, tw, th) == resampled(b, sw, sh, tw, th),
        target_view(a, sw, sh, tw, th, pal) == target_view(b, sw, sh, tw, th, pal),
        glyph_row(a, sw, sh, tw, th, pal, y) == glyph_row(b, sw, sh, tw, th, pal, y),
{
}

/// Runs the full conversion: validates the inputs, downsamples `src` to
/// `tw x th`, quantizes and dithers the result against `palette`, and encodes
/// every glyph row with the given run-length `threshold`. Returns an error
/// exactly when a target dimension is zero, the palette is empty, or the
/// source is smaller than the target in some axis (checked in that order).
pub fn convert(src: &Raster, tw: usize, th: usize, palette: &Palette, threshold: usize) -> (r:
    Result<AsciiArt, PipelineError>)
    requires
        src.wf(),
    ensures
        match r {
            Ok(art) => {
                &&& tw >= 1 && th >= 1
                &&& palette@.len() > 0
                &&& tw <= src.spec_width() && th <= src.spec_height()
                &&& art.preview.wf()
                &&& art.preview.spec_width() == tw
                &&& art.preview.spec_height() == th
                &&& art.preview@ == target_view(
                    src@,
                    src.spec_width(),
                    src.spec_height(),
                    tw as int,
                    th as int,
                    palette@,
                )
                &&& art.glyphs@.len() == th
                &&& forall|y: int|
                    0 <= y < th ==> (#[trigger] art.glyphs@[y])@ == glyph_row(
                        src@,
                        src.spec_width(),
                        src.spec_height(),
                        tw as int,
                        th as int,
                        palette@,
                        y,
                    )
                &&& art.encoded@.len() == th
                &&& forall|y: int|
                    0 <= y < th ==> (#[trigger] art.encoded@[y])@ == spec_render(
                        spec_encode(
                            glyph_row(
                                src@,
                                src.spec_width(),
                                src.spec_height(),
                                tw as int,
                                th as int,
                                palette@,
                                y,
                            ),
                            threshold as int,
                        ),
                    )
            },
            Err(PipelineError::ZeroTargetDimension) => tw == 0 || th == 0,
            Err(PipelineError::EmptyPalette) => tw >= 1 && th >= 1 && palette@.len() == 0,
            Err(PipelineError::SourceSmallerThanTarget) => tw >= 1 && th >= 1 && palette@.len() > 0
                && (tw > src.spec_width() || th > src.spec_height()),
        },
{
    if tw == 0 || th == 0 {
        return Err(PipelineError::ZeroTargetDimension);
    }
    if palette.len() == 0 {
        return Err(PipelineError::EmptyPalette);
    }
    if tw > src.width() || th > src.height() {
        return Err(PipelineError::SourceSmallerThanTarget);
    }
    let ghost sw = src.spec_width();
    let ghost sh = src.spec_height();
    let mut preview = resample(src, tw, th);
    let glyphs = dither(&mut preview, palette);
    proof {
        assert forall|y: int| 0 <= y < th implies (#[trigger] glyphs@[y])@ =~= glyph_row(
            src@,
            sw,
            sh,
            tw as int,
            th as int,
            palette@,
            y,
        ) by {
            assert(glyphs@[y]@.len() == tw);
            assert(forall|x: int|
                0 <= x < tw ==> #[trigger] glyphs@[y]@[x] == dither_glyph(
                    resampled(src@, sw, sh, tw as int, th as int),
                    tw as int,
                    th as int,
                    palette@,
                    y * tw + x,
                ));
        }
    }
    let mut encoded: Vec<Vec<char>> = Vec::new();
    let mut y: usize = 0;
    while y < th
        invariant
            y <= th,
            glyphs@.len() == th,
            encoded@.len() == y,
            forall|yy: int|
                0 <= yy < th ==> (#[trigger] glyphs@[yy])@ == glyph_row(
                    src@,
                    sw,
                    sh,
                    tw as int,
                    th as int,
                    palette@,
                    yy,
                ),
            forall|yy: int|
                0 <= yy < y ==> (#[trigger] encoded@[yy])@ == spec_render(
                    spec_encode(
                        glyph_row(src@, sw, sh, tw as int, th as int, palette@, yy),
                        threshold as int,
                    ),
                ),
        decreases th - y,
    {
        let line = encode_row_text(&glyphs[y], threshold);
        encoded.push(line);
        y = y + 1;
    }
    Ok(AsciiArt { glyphs, encoded, preview })
}

} // verus!
