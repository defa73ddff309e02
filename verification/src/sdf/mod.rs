//! Integer logic of the signed-distance-field sandbox: grids of inside/outside cells,
//! their connected components and boundary loops, and the marching-squares topology.

pub mod marching;
pub mod region;
