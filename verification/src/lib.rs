//! Implementations of common inclusive jet clustering algorithms.
//!
//! Partons are merged pairwise, closest pair first, until every pseudojet
//! that is left is nearer to the beam than to any other pseudojet and is
//! declared a jet. What "close" means is supplied by the caller as a
//! [`Distance`]: the distance between two pseudojets, the distance of a
//! pseudojet to the beam, the separation by which nearest neighbours are
//! found, and what two pseudojets combine into. Common choices are
//!
//! - [anti-kt](https://arxiv.org/abs/0802.1189)
//! - [Cambridge](https://arxiv.org/abs/hep-ph/9707323)/[Aachen](https://arxiv.org/abs/hep-ph/9907280)
//! - [kt](https://arxiv.org/abs/hep-ph/9305266)
//! - Generalised kt.
//!
//! The library keeps the books: which pseudojets are active, which pair or
//! which jet comes next, and how the active pseudojets change. It never
//! computes with the numbers themselves; it only orders them.
/// Jet clustering algorithms
pub mod cluster;
/// Distances and jet definitions
pub mod distance;
/// Pseudojets
pub mod pseudojet;
/// Scalars
pub mod scalar;

pub use cluster::{cluster, cluster_if};
pub use cluster::{Cluster, ClusterHist, ClusterHistory, ClusterStep};
pub use distance::Distance;
pub use pseudojet::{InvalidMomentum, PseudoJet};
pub use scalar::Scalar;
