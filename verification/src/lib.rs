//! Grid-based unit navigation.
//!
//! An occupancy grid discretizes a 2-D world into cells. A unit that is asked
//! to move receives a cost-minimal route computed by an A* search over
//! (cell, heading) states: turning is penalized, so the search distinguishes
//! the direction a cell was entered from. The finished route is a sequence of
//! world-space waypoints that a motion controller drains tick by tick,
//! rotating and translating the unit at bounded rates.
//!
//! World positions and angles are fixed-point integers: one world unit is
//! `DISTANCE_FACTOR` position units, and a full turn is `TURN_UNITS` angle
//! units.
//!
//! The central guarantees are stated and proved in `a_star`: the search is
//! a deterministic function of the request, a returned route is a legal
//! walk from start to goal, a failed search means no legal walk exists, a
//! reachable target is always found within a computable step budget, and
//! the motion controller drains every route in finitely many ticks.

pub mod a_star;
pub mod environment;
pub mod movable;
pub mod num;
