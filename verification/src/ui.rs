//! The widget composition protocol: a per-frame tree of widget descriptors
//! measured against pixel limits, rasterized into a surface, and hit-tested
//! against the pointer, plus the interaction-state accumulators that consume
//! the per-frame hit result.

pub mod handler;
pub mod widget;

pub use handler::drag::DragHandler;
pub use handler::hit::HitHandler;
pub use handler::overflow::OverflowHandler;
pub use handler::tap::TapHandler;
pub use widget::Border;
pub use widget::Feedback;
pub use widget::HBox;
pub use widget::Hit;
pub use widget::Interceptor;
pub use widget::Label;
pub use widget::Margin;
pub use widget::Overflow;
pub use widget::Stack;
pub use widget::VBox;
pub use widget::VSpan;
pub use widget::Widget;
pub use widget::UI;
