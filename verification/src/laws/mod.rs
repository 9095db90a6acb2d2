//! What holds of the library as a whole: laws that relate what goes into its functions
//! to what comes out, without looking at how they work.
pub mod asking;
pub mod batches;
pub mod categories;
pub mod handles;
mod lists;
pub mod names;
pub mod numbers;
pub mod orders;
pub mod paths;
pub mod places;
pub mod reclaiming;
pub mod removing;
pub mod scanning;
pub mod screens;
pub mod searching;
pub mod showing;
pub mod trees;
pub mod walking;
