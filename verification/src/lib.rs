//! The integer core of a gravity-well particle sandbox: the fabric grid that
//! bodies bend, the cells a body reaches, the pixel canvas the view is drawn
//! on, and the small decisions of the event loop.
pub mod canvas;
pub mod colour;
pub mod fabric;
pub mod influence;
pub mod timing;

pub use canvas::{Canvas, Rgba};
pub use colour::hue_channels;
pub use fabric::{Fabric, Neighbors};
pub use influence::{Splat, INFLUENCE_RADIUS};
pub use timing::{redraw_due, IDLE_REDRAW_MILLIS, PHYSICS_SUB_STEPS};
