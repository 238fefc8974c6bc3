//! Median-cut palette extraction.

use vstd::prelude::*;

use crate::color::{Rgb8, SAMPLE_LIMIT};
use crate::colorpalette::{extract_palette, leaves, palette, PaletteExtractionAlgorithm};

verus! {

/// Median-cut palette extraction: `extract_palette` with population-balanced
/// splits; `None` when there are no samples.
pub fn median_cut(values: &mut [Rgb8], depth: usize) -> (r: Option<Vec<Rgb8>>)
    requires
        old(values)@.len() <= SAMPLE_LIMIT,
    ensures
        final(values)@ == leaves(old(values)@, depth as nat, PaletteExtractionAlgorithm::MedianCut).flatten(),
        final(values)@.to_multiset() == old(values)@.to_multiset(),
        old(values)@.len() == 0 <==> r is None,
        r matches Some(p) ==> p@ == palette(
            old(values)@,
            depth as nat,
            PaletteExtractionAlgorithm::MedianCut,
        ),
{
    match extract_palette(values, depth, &PaletteExtractionAlgorithm::MedianCut) {
        Ok(p) => Some(p),
        Err(_) => None,
    }
}

} // verus!
