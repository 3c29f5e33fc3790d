//! Mesh topology, octree addressing and transvoxel cube tables.
pub mod mesh_edge;
pub mod directed_mesh_edge;
pub mod mesh_triangle;
pub mod mesh;
pub mod transvoxel;
pub mod half_edge_mesh;
pub mod half_edge_order;
pub mod edge_table;
pub mod subdivide;
pub mod trap_decomp;
pub mod monotone_decomp;
pub mod tri_mesh2;
pub mod edge_mesh2;
pub mod progress;
pub mod exact;
pub mod sdf_leaf;
pub mod bvh;
mod slab_store;
pub mod array_lists;
pub mod octree;
pub mod stl;
pub mod mesh_cut;
pub mod bimesh2;
pub mod triangulation;
pub mod tiling;
