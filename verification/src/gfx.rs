//! Pixel-level foundations: integer geometry, colors with stencil blending,
//! pixel surfaces with drawing primitives, and bitmap-font text layout.

pub mod bdf;
pub mod color;
pub mod geom;
pub mod font;
pub mod surface;

pub use bdf::BdfFont;
pub use bdf::FontError;
pub use color::BlendMode;
pub use color::Color;

pub use font::Font;
pub use font::Glyph;
pub use geom::Point;
pub use geom::Rect;
pub use geom::Scalar;
pub use geom::Size;
pub use surface::ReadSurface;
pub use surface::SliceSurface;
pub use surface::U8SliceSurface;
pub use surface::Surface;
pub use surface::VecSurface;
pub use surface::WriteSurface;
