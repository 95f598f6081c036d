# bsp_tree

Binary space partitioning of the plane, verified with Verus.

- `src/` is the verified library, generic over the point type:
  - `node.rs`: polygons, partition lines, the polygon BSP node and its
    counting functions, and the classification of a polygon from the sides
    of its vertices;
  - `splitter.rs`: splitting a polygon into front and back parts;
  - `bsp.rs`: building a polygon BSP tree and its front-to-back and
    back-to-front traversals;
  - `portal.rs`: portals between the leaves on either side of each
    partition line;
  - `pvs.rs`: potentially visible sets, closed over the portals;
  - `segment.rs`: a BSP tree of line segments.
- `app/` holds the `f64` geometry (distances to a line, normals,
  intersection points) that measures points and hands sides, points and
  splitting functions to the library.
- `tests/` runs the library with `f64` points.
