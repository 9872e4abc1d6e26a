//! Errors the pipeline's verified stages report.

use vstd::prelude::*;

verus! {

/// Fatal conditions the conversion and compositing stages detect: a pixel
/// format the converter cannot interpret, or a requested crop that does not
/// overlap the composited canvas.
#[derive(Clone, Copy, Debug, PartialEq, Eq, Structural)]
pub enum PipelineError {
    UnsupportedFormat,
    EmptyCrop,
}

} // verus!
