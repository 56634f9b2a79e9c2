//! Fraud scoring by nearest-neighbour search over a bucketed, quantised
//! reference set.
//!
//! - `buckets`: the mixed-radix bucket key of a quantised vector.
//! - `calendar`: timestamp reading and the civil-date day count.
//! - `compact`: reading and writing the vector file, and its offset table.
//! - `index`: the block index over the reference vectors.
//! - `distance`: squared distances to points and boxes, summed in the
//!   search's dimension order.
//! - `kbest`: keeping the k smallest distances seen, by insertion.
//! - `search`: branch-and-bound search for the nearest reference vectors.
//! - `sorting`: sorting by an integer key.
//! - `balancer`: the order in which the load balancer tries upstreams.

pub mod balancer;
pub mod buckets;
pub mod calendar;
pub mod compact;
pub mod distance;
pub mod index;
pub mod kbest;
pub mod search;
pub mod sorting;
