//! Descriptions of the images a packing run works on and of where its
//! results go. The library only carries the paths through; reading and
//! writing pixel data is the caller's business.

use vstd::prelude::*;
use std::path::PathBuf;

verus! {

/// Declares `std::path::PathBuf` as an opaque type so image locations can be
/// carried through the library. The library never inspects a path; it relies
/// on nothing about the type.
#[verifier::external_type_specification]
#[verifier::external_body]
pub struct ExPathBuf(PathBuf);

/// One requested image: where its pixel data lives, and whether it is meant
/// to tile (tiling images are recorded but receive no special treatment).
pub struct ImageDefinition {
    path: PathBuf,
    repeat: bool,
}

impl ImageDefinition {
    /// The location of the image's pixel data.
    pub closed spec fn spec_path(self) -> PathBuf {
        self.path
    }

    /// Whether the image was marked as tiling.
    pub closed spec fn spec_repeat(self) -> bool {
        self.repeat
    }

    /// A plain, non-tiling image at `path`.
    pub fn new(path: PathBuf) -> (r: Self)
        ensures
            r.spec_path() == path,
            !r.spec_repeat(),
    {
        Self { path, repeat: false }
    }

    /// Read access to the image's location.
    pub fn path(&self) -> (r: &PathBuf)
        ensures
            *r == self.spec_path(),
    {
        &self.path
    }
}

/// Everything one packing-and-compositing run needs: the canvas dimensions,
/// the images to pack, and where the composited atlas and the placement map
/// should be written.
pub struct Config {
    pub width: u32,
    pub height: u32,
    pub input: Vec<ImageDefinition>,
    pub base_dir: PathBuf,
    pub output_image: PathBuf,
    pub output_map: PathBuf,
    pub border: u32,
}

} // verus!
