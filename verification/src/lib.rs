//! Verified core of a small OpenGL scene viewer: buffer-size arithmetic for
//! vertex uploads, the comma-separated value format that vertex and colour data
//! are stored in, keyboard and window state shared between the event loop and
//! the render loop, and the traversal order of the scene graph.

pub mod buffers;
pub mod values;
pub mod input;
pub mod camera;
pub mod scene;
