//! Verified core of a Mars colony simulation: grid cells and chunks,
//! deterministic hashing, walking distances and paths, structure
//! footprints and networks, placement rules, the task board, task
//! assignment and the workers' moves.
pub mod grille;
pub mod bruit;
pub mod monde;
pub mod navigation;
pub mod tri;
pub mod structures;
pub mod interactions;
pub mod recharge;
pub mod tri_stable;
pub mod taches;
pub mod reseaux;
pub mod streaming;
pub mod promenade;
pub mod tableau;
pub mod deplacement;
pub mod apparence;
pub mod cycle;
