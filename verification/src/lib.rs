//! A discrete-time model of people moving through a building served by
//! elevators, with two dispatch policies and the running statistics that
//! compare them: average wait time and average energy spent.
//!
//! Probabilities and rates are whole numbers of millionths, energy is a
//! whole number of caller-chosen units, and averages are kept as an exact
//! total and count.

pub mod random;
pub mod person;
pub mod people;
pub mod mean;
pub mod nearest;
pub mod floor;
pub mod floors;
pub mod elevator;
pub mod elevators;
pub mod building;
pub mod population;
pub mod snapshot;
pub mod step;
pub mod controller;
