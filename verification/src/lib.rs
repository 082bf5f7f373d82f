pub mod canon;
pub mod cell_shape;
pub mod coord;
pub mod pentomino;
pub mod tile_grid;
pub mod transform;
