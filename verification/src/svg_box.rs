//! SVG frames.
use vstd::prelude::*;

verus! {

/// How an SVG drawing is fitted into its frame.
#[derive(Debug, Clone, Copy, PartialEq, Eq, Structural)]
pub enum FitMode {
    /// Scale to fit entirely inside the frame, preserving aspect ratio (letterbox).
    Proportional,
    /// Draw at the SVG's natural 1:1 size from the top-left; clip if larger than frame.
    Original,
    /// Stretch to fill the frame exactly, ignoring aspect ratio.
    Stretch,
}

impl Default for FitMode {
    fn default() -> (r: Self)
        ensures
            r == FitMode::Proportional,
    {
        FitMode::Proportional
    }
}

#[derive(Debug, Clone)]
pub struct SvgBox {
    pub svg_path: String,
    pub fit_mode: FitMode,
}

/// An SVG frame as a value.
pub struct SvgModel {
    pub svg_path: Seq<char>,
    pub fit_mode: FitMode,
}

impl SvgBox {
    pub open spec fn model(&self) -> SvgModel {
        SvgModel { svg_path: self.svg_path@, fit_mode: self.fit_mode }
    }

    pub fn new(svg_path: String) -> (r: Self)
        ensures
            r.model() == (SvgModel { svg_path: svg_path@, fit_mode: FitMode::Proportional }),
    {
        SvgBox { svg_path, fit_mode: FitMode::default() }
    }

    pub fn path(&self) -> (r: &str)
        ensures
            r@ == self.svg_path@,
    {
        self.svg_path.as_str()
    }

    pub fn fit_mode(&self) -> (r: FitMode)
        ensures
            r == self.fit_mode,
    {
        self.fit_mode
    }

    pub fn set_fit_mode(&mut self, mode: FitMode)
        ensures
            final(self).model() == (SvgModel { fit_mode: mode, ..old(self).model() }),
    {
        self.fit_mode = mode;
    }

    /// An equal copy.
    pub fn clone_svg(&self) -> (r: SvgBox)
        ensures
            r.model() == self.model(),
    {
        SvgBox { svg_path: self.svg_path.clone(), fit_mode: self.fit_mode }
    }
}

impl Default for SvgBox {
    fn default() -> (r: Self)
        ensures
            r.model() == (SvgModel { svg_path: Seq::empty(), fit_mode: FitMode::Proportional }),
    {
        SvgBox { svg_path: String::new(), fit_mode: FitMode::Proportional }
    }
}

} // verus!
