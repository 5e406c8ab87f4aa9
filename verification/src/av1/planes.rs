//! Decoded AV1 sample planes.
use vstd::prelude::*;

verus! {

/// The geometry of one decoded plane.
#[derive(Debug, Clone, Copy, PartialEq, Eq, Structural)]
pub struct PlaneLayout {
    /// 0 for luma (or G), 1 and 2 for chroma, 3 for alpha.
    pub plane: u8,
    pub width: usize,
    pub height: usize,
    pub subsampling_x: u8,
    pub subsampling_y: u8,
    pub sample_count: usize,
}

/// One decoded plane: its samples in raster order.
#[derive(Debug, Clone, PartialEq, Eq)]
pub struct PlaneBuffer {
    pub layout: PlaneLayout,
    pub samples: Vec<u16>,
}

/// The planes of one decoded frame.
#[derive(Debug, Clone, PartialEq, Eq)]
pub struct FrameBuffers {
    pub width: usize,
    pub height: usize,
    pub planes: Vec<PlaneBuffer>,
}

/// A plane as a mathematical value: its layout and its samples.
pub struct PlaneView {
    pub layout: PlaneLayout,
    pub samples: Seq<u16>,
}

impl View for PlaneBuffer {
    type V = PlaneView;

    open spec fn view(&self) -> PlaneView {
        PlaneView { layout: self.layout, samples: self.samples@ }
    }
}

/// The views of a list of planes.
pub open spec fn plane_views(planes: Seq<PlaneBuffer>) -> Seq<PlaneView> {
    planes.map_values(|p: PlaneBuffer| p@)
}

/// The planes of a frame as a mathematical value.
pub struct FrameBuffersView {
    pub width: usize,
    pub height: usize,
    pub planes: Seq<PlaneView>,
}

impl View for FrameBuffers {
    type V = FrameBuffersView;

    open spec fn view(&self) -> FrameBuffersView {
        FrameBuffersView { width: self.width, height: self.height, planes: plane_views(self.planes@) }
    }
}

} // verus!
