# patina

The combinatorial core of a mesh and signed-distance-field toolkit, written in Verus.

`src/` is the verified library:

- `mesh_edge`, `directed_mesh_edge`, `mesh_triangle`, `mesh`: indexed triangle meshes and
  their edges, with views over vertex indices.
- `half_edge_mesh`, `edge_table`: a half-edge structure built from a triangle mesh, its
  manifold check, vertex fans, edge contraction (used by decimation) and the way back to
  an indexed mesh. `half_edge_mesh` proves that a contraction the decimator allows keeps
  the mesh manifold, and that converting back gives the same triangles.
- `subdivide`: splitting triangles along the edges that cross a surface.
- `transvoxel`: the cube, tetrahedron and triangle tables behind marching tetrahedra, the
  exact orientation test on lattice points, and the assembly of a cube's triangles from
  the inside/outside answers for its corners.
- `octree`: octree paths (with the face and edge neighbour rules) and an octree container.
- `trap_decomp`, `monotone_decomp`, `tri_mesh2`, `edge_mesh2`: planar meshes, their
  polygon loops, the left-to-right sweep that cuts a polygon mesh into trapezoids, and the
  joining of trapezoids into monotone polygons.
- `triangulation`: cutting a monotone polygon into triangles with a stack; a polygon of `n`
  vertices always gives `n - 2` triangles, whatever the caller's winding test answers.
- `bvh`: the node structure of a bounding volume hierarchy; every leaf lands in exactly
  one node, however the caller chooses the splits.
- `mesh_cut`, `bimesh2`: cutting a planar mesh along a path, and splitting and selecting the
  edges of two overlaid meshes for union, difference and intersection.
- `progress`: how a unit of progress is divided among pieces of work.
- `stl`: the byte layout of a binary STL file.
- `slab_store`, `array_lists`: the trusted wrappers around `slab` and `arrayvec`.

`app/` holds what Verus does not check: floating-point geometry, the scalar trait, the
drivers that ask geometric questions and hand the answers to the library, progress bars,
the priority queue of the decimator, the STL and SVG writers' number formatting, the
`f64` orderings and crossing points that drive the sweep, the cut and the overlay, and
Newton root finding.

`tests/` runs the library on concrete inputs.
