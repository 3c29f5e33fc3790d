pub mod cube_vertex;
pub mod cube_edge;
pub mod cube_face;
pub mod cube_tetr;
pub mod cube_triangle;
pub mod cube_input;
pub mod cut_cover;
