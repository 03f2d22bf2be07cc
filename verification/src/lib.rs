//! World-simulation core of a survival game: inventory grids, item and
//! faction registries, squad planning, navigation, loot, chronicles and the
//! framing of save files.
pub mod astar;
pub mod chronicle;
pub mod components;
pub mod content;
pub mod cover;
pub mod faction;
pub mod float_bits;
pub mod goap;
pub mod goap_actions;
pub mod helpers;
pub mod idmap;
pub mod inventory_grid;
pub mod items;
pub mod loot_containers;
pub mod loot_pools;
pub mod los_cache;
pub mod names;
pub mod nav;
pub mod nav_path;
pub mod nav_queries;
pub mod npc_loadouts;
pub mod offline_combat;
pub mod offline_movement;
pub mod offline_pairs;
pub mod offline_tier;
pub mod patrol_zone;
pub mod pda_log;
pub mod perception;
pub mod persistence;
pub mod poi;
pub mod region;
pub mod rng;
pub mod strmap;
pub mod text;
pub mod waypoints;
pub mod weighted;
