//! Verified core of a Hybrid Genetic Search for the Capacitated Vehicle Routing
//! Problem: the random number generator (whose multiplier is proved a primitive
//! root, so that it reaches every state), circle sectors, the deque and route
//! decoding of the Split algorithm, the OX crossover, the granular neighbourhoods,
//! the linked route structure of the local search and the rewiring of its moves
//! (relocations, swaps, 2-opt and 2-opt*), and the parsers of the command line and
//! of CVRPLIB instance files.
pub mod rng;
pub mod rng_period;
pub mod circle_sector;
pub mod split;
pub mod genetic;
pub mod text;
pub mod cli;
pub mod cvrplib;
pub mod params;
pub mod local_search;
pub mod route_moves;
pub mod route_reversal;
pub mod route_segment;
pub mod route_relocation;
pub mod route_swap;
pub mod individual;
