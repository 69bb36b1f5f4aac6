//! Core of a discrete-event, agent-based simulation engine.
//!
//! A [`schedule::Schedule`] drives a population of agents forward in ordered
//! time steps, popping events in `(time, ordering)` priority order. Agents
//! read a consistent snapshot of the world through double-buffered fields
//! ([`dbm::DoubleBufferedMap`]) while staging writes for the next tick; an
//! explicit `update` call is the publication barrier that promotes the staged
//! writes. On top of the double-buffered map sit a two-dimensional bucketed
//! space ([`field2d::Field2D`]) and a graph of agent-keyed edges
//! ([`network::Network`]).

pub mod agent;
pub mod agentimpl;
pub mod dbm;
pub mod events;
pub mod field2d;
pub mod keymap;
pub mod network;
pub mod priority;
pub mod render;
pub mod schedule;
pub mod state;
