//! STEP import bookkeeping for the cadrum CAD kernel bindings: the
//! correspondence between physical STEP entities and kernel topology, the
//! colour trailer that follows a BRep payload, the display-only bodies that
//! a STEP reader may recover, and the bounded tessellation presets used to
//! mesh them.

pub mod binding;
pub mod color_columns;
pub mod edges;
pub mod error;
pub mod index;
pub mod mesh_colors;
pub mod trailer;
pub mod visual;

pub use binding::{
    binding_columns_are_decodable, classify_bodies, decode_step_bindings, definition_indices, StepBodyClass,
    StepEntityKind, StepTopologyBinding, StepTopologyBindingTarget, StepTopologyKind, StepTopologyUnboundReason,
};
pub use color_columns::{color_columns, colors_from_columns};
pub use edges::drawable_edges;
pub use error::Error;
pub use mesh_colors::{face_colors, mesh_colormap, ShapeColors};
pub use trailer::{
    color_trailer_bytes, encode_color_trailer, read_brep_colors, read_color_trailer, resolve_trailer_colors, Color,
};
pub use visual::{StepVisualBody, StepVisualFace, StepVisualTessellation, Tessellation};
