//! The result of segmentation: the components that a raster falls into.

use vstd::prelude::*;

verus! {

/// A labelling of the pixels of a `width` by `height` raster. `labels[y * width + x]`
/// is the component of a pixel, `component_color[c]` the palette index of a
/// component (0 is transparent) and `component_area[c]` its number of pixels.
pub struct Segmentation {
    pub width: usize,
    pub height: usize,
    pub labels: Vec<u32>,
    pub num_components: usize,
    pub component_color: Vec<u32>,
    pub component_area: Vec<u32>,
}

/// What a segmentation says.
pub ghost struct Components {
    pub width: int,
    pub height: int,
    pub labels: Seq<u32>,
    pub count: int,
    pub colors: Seq<u32>,
    pub areas: Seq<u32>,
}

impl View for Segmentation {
    type V = Components;

    open spec fn view(&self) -> Components {
        Components {
            width: self.width as int,
            height: self.height as int,
            labels: self.labels@,
            count: self.num_components as int,
            colors: self.component_color@,
            areas: self.component_area@,
        }
    }
}

impl Segmentation {
    /// Every pixel has a component, and every component a colour and an area.
    pub open spec fn wf(&self) -> bool {
        &&& self.labels@.len() == self.width * self.height
        &&& self.component_color@.len() == self.num_components
        &&& self.component_area@.len() == self.num_components
        &&& forall|p: int|
            0 <= p < self.labels@.len() ==> #[trigger] self.labels@[p] < self.num_components
    }

    /// Whether component `c` is drawn.
    pub open spec fn opaque(&self, c: int) -> bool {
        self.component_color@[c] != 0
    }

    /// The component of pixel `p`.
    pub open spec fn label(&self, p: int) -> int {
        self.labels@[p] as int
    }
}

} // verus!
