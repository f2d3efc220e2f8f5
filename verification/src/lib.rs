//! Core of a grid-world colony simulation: procedural map generation with
//! fog-of-war visibility, A* pathfinding, resource-harvesting agents, and a
//! station that banks deposits and adaptively spawns new agents.

pub mod map;
pub mod pathfinding;
pub mod rng;
pub mod robot;
pub mod simulation;
pub mod station;
