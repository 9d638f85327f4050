//! Route planning for waypoint requests: orders the stops of one or more groups
//! with the greedy nearest-neighbour rule, over a table of distance keys, and
//! the plain data types exchanged with clients.
pub mod account;
pub mod error;
pub mod table;
pub mod tour;
