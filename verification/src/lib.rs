//! A cave-dungeon roguelike core: terrain, regions, path finding, field of view,
//! items and inventory, stats and the action queue, with their contracts.

pub mod text;
pub mod tile;
pub mod room;
pub mod map;
pub mod reach;
pub mod regions;
pub mod rng;
pub mod terrain;
pub mod occupancy;
pub mod pathfinding;
pub mod fov;
pub mod ranking;
pub mod action;
pub mod turns;
pub mod items;
pub mod stats;
pub mod monsters;
pub mod bag;
pub mod screens;
pub mod floors;
pub mod conduct;
pub mod saves;
pub mod display;
pub mod line;
pub mod keymap;
pub mod events;
pub mod world;
pub mod view;

pub mod snapshot;
pub mod panels;
