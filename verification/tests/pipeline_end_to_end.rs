use ascii_dither::dither::dither;
use ascii_dither::resample::resample;
use ascii_dither::{convert, Palette, PaletteEntry, PipelineError, Raster};

fn uniform(w: usize, h: usize, v: u8) -> Raster {
    Raster::new_filled(w, h, v)
}

#[test]
fn resampler_averages_patches() {
    let r = resample(&Raster::from_data(2, 1, vec![10, 20]), 1, 1);
    assert_eq!(r.samples(), &vec![15]);
    let r = resample(&Raster::from_data(3, 1, vec![1, 2, 3]), 1, 1);
    assert_eq!(r.samples(), &vec![2]);
}

#[test]
fn resampler_truncates_toward_zero() {
    let r = resample(&Raster::from_data(3, 1, vec![0, 0, 1]), 1, 1);
    assert_eq!(r.samples(), &vec![0]);
}

#[test]
fn resampler_keeps_target_dimensions_and_patch_range() {
    let src = Raster::from_data(3, 2, vec![10, 20, 30, 40, 50, 60]);
    let r = resample(&src, 2, 1);
    assert_eq!(r.width(), 2);
    assert_eq!(r.height(), 1);
    // Patch of cell 0 is column 0; patch of cell 1 is columns 1..3, rows 0..2.
    assert_eq!(r.samples(), &vec![25, 40]);
    // Each cell lies within the min and max of its patch.
    assert!((10..=40).contains(&r.samples()[0]));
    assert!((20..=60).contains(&r.samples()[1]));
}

#[test]
fn resampler_is_deterministic() {
    let src = Raster::from_data(4, 4, (0u8..16).collect());
    let a = resample(&src, 2, 2);
    let b = resample(&src, 2, 2);
    assert_eq!(a.samples(), b.samples());
}

#[test]
fn end_to_end_uniform_source() {
    let src = uniform(4, 4, 128);
    let art = convert(&src, 2, 2, &Palette::classic(), 2).unwrap();
    // Resampling a uniform source gives four cells of 128; 128 quantizes to
    // 146 (distance 18 beats 109 at distance 19), and the diffused residual
    // -18 pushes the remaining cells to 109.
    assert_eq!(art.glyphs, vec![vec![';', 'I'], vec!['I', ';']]);
    assert_eq!(art.preview.samples(), &vec![146, 109, 109, 146]);
    // Two-glyph rows with threshold 2 stay literal.
    let lines: Vec<String> = art.encoded.iter().map(|r| r.iter().collect()).collect();
    assert_eq!(lines, vec![";I".to_string(), "I;".to_string()]);
}

#[test]
fn pipeline_is_deterministic() {
    let data: Vec<u8> = (0..64).map(|i| (i * 4) as u8).collect();
    let src = Raster::from_data(8, 8, data);
    let a = convert(&src, 3, 3, &Palette::classic(), 2).unwrap();
    let b = convert(&src, 3, 3, &Palette::classic(), 2).unwrap();
    assert_eq!(a.glyphs, b.glyphs);
    assert_eq!(a.encoded, b.encoded);
    assert_eq!(a.preview.samples(), b.preview.samples());
}

#[test]
fn zero_target_dimension_is_rejected() {
    let src = uniform(4, 4, 100);
    assert_eq!(
        convert(&src, 0, 2, &Palette::classic(), 2).unwrap_err(),
        PipelineError::ZeroTargetDimension
    );
    assert_eq!(
        convert(&src, 2, 0, &Palette::classic(), 2).unwrap_err(),
        PipelineError::ZeroTargetDimension
    );
}

#[test]
fn empty_palette_is_rejected() {
    let src = uniform(4, 4, 100);
    let empty = Palette::from_entries(Vec::new());
    assert_eq!(
        convert(&src, 2, 2, &empty, 2).unwrap_err(),
        PipelineError::EmptyPalette
    );
}

#[test]
fn small_source_is_rejected() {
    let src = uniform(2, 2, 100);
    assert_eq!(
        convert(&src, 4, 2, &Palette::classic(), 2).unwrap_err(),
        PipelineError::SourceSmallerThanTarget
    );
    assert_eq!(
        convert(&src, 2, 4, &Palette::classic(), 2).unwrap_err(),
        PipelineError::SourceSmallerThanTarget
    );
}

#[test]
fn diffusion_clamps_low_instead_of_wrapping() {
    // Cell 0 quantizes 0 -> 100, residual -100; its 7/16 share (-43) would
    // push the second cell to 10 - 43 = -33, which must clamp to 0. A wrap
    // would leave 223, whose nearest entry is 200 ('a') instead of 'b'.
    let mut raster = Raster::from_data(2, 1, vec![0, 10]);
    let palette = Palette::from_entries(vec![
        PaletteEntry { glyph: 'a', brightness: 200 },
        PaletteEntry { glyph: 'b', brightness: 100 },
    ]);
    let grid = dither(&mut raster, &palette);
    assert_eq!(grid, vec![vec!['b', 'b']]);
    assert_eq!(raster.samples(), &vec![100, 100]);
}

#[test]
fn diffusion_clamps_high_instead_of_wrapping() {
    // Cell 0 quantizes 255 -> 155, residual 100; its 7/16 share (43) would
    // push the second cell to 245 + 43 = 288, which must clamp to 255. A wrap
    // would leave 32, nearest entry 55 ('a') instead of 'b'.
    let mut raster = Raster::from_data(2, 1, vec![255, 245]);
    let palette = Palette::from_entries(vec![
        PaletteEntry { glyph: 'a', brightness: 55 },
        PaletteEntry { glyph: 'b', brightness: 155 },
    ]);
    let grid = dither(&mut raster, &palette);
    assert_eq!(grid, vec![vec!['b', 'b']]);
    assert_eq!(raster.samples(), &vec![155, 155]);
}

#[test]
fn zero_residual_preserves_brightness_exactly() {
    // 146 is itself a palette brightness, so every residual is zero and the
    // total brightness of the raster is preserved exactly.
    let src = uniform(3, 3, 146);
    let art = convert(&src, 3, 3, &Palette::classic(), 2).unwrap();
    assert_eq!(art.preview.samples(), &vec![146; 9]);
    let before: u32 = 146u32 * 9;
    let after: u32 = art.preview.samples().iter().map(|&v| v as u32).sum();
    assert_eq!(before, after);
}

#[test]
fn dithering_tracks_total_brightness() {
    // A mid-gray raster: quantization residuals diffuse forward, and the
    // total brightness of the quantized raster stays close to the original
    // (within 3 per cell plus what falls off the right and bottom edges).
    let src = uniform(4, 4, 128);
    let art = convert(&src, 4, 4, &Palette::classic(), 2).unwrap();
    let before: i64 = 128 * 16;
    let after: i64 = art.preview.samples().iter().map(|&v| v as i64).sum();
    // Residuals here are at most 19 per cell, so boundary losses over the
    // seven edge cells stay under 19 each; with the 3-per-cell truncation
    // bound the drift stays well under 19 * 7 + 3 * 16 = 181.
    assert!((before - after).abs() <= 181);
}
