pub mod detailed_canvas;
pub mod life_viewer;
