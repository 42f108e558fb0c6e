//! Image frames.
use vstd::prelude::*;

verus! {

/// How an image and its frame are fitted to each other.
#[derive(Debug, Clone, Copy, PartialEq, Eq, Structural)]
pub enum FitMode {
    ImageToFrame,
    FrameToImage,
}

impl Default for FitMode {
    fn default() -> (r: Self)
        ensures
            r == FitMode::ImageToFrame,
    {
        FitMode::ImageToFrame
    }
}

#[derive(Debug, Clone)]
pub struct ImageBox {
    pub image_path: Option<String>,
    pub fit_mode: FitMode,
}

/// An image frame as a value.
pub struct ImageModel {
    pub image_path: Option<Seq<char>>,
    pub fit_mode: FitMode,
}

impl ImageBox {
    pub open spec fn model(&self) -> ImageModel {
        ImageModel {
            image_path: match self.image_path {
                Some(p) => Some(p@),
                None => None,
            },
            fit_mode: self.fit_mode,
        }
    }

    pub fn fit_mode(&self) -> (r: FitMode)
        ensures
            r == self.fit_mode,
    {
        self.fit_mode
    }

    /// An equal copy.
    pub fn clone_image(&self) -> (r: ImageBox)
        ensures
            r.model() == self.model(),
    {
        ImageBox {
            image_path: match &self.image_path {
                Some(p) => Some(p.clone()),
                None => None,
            },
            fit_mode: self.fit_mode,
        }
    }
}

impl Default for ImageBox {
    fn default() -> (r: Self)
        ensures
            r.model() == (ImageModel { image_path: None, fit_mode: FitMode::ImageToFrame }),
    {
        ImageBox { image_path: None, fit_mode: FitMode::ImageToFrame }
    }
}

} // verus!
