//! The core of a 2048 engine for a search over the game tree.
//!
//! A board is one 64-bit word of sixteen tiles ([`game_logic`]). The moves
//! of the player slide and merge the tiles of each line ([`slide`],
//! [`moves`]), by computation or by lookup in tables of all rows
//! ([`tables`]); the moves of the computer put a new tile into an empty cell
//! ([`spawn`]). The tree of the boards that a game can come to is made as
//! far as it is asked for ([`search_tree`]): each board has one node of a
//! kind ([`nodes`], [`cache`]), and the nodes that cannot be reached from
//! the root are forgotten when the root moves on ([`graph`]).

pub mod bits;
pub mod cache;
pub mod distinct;
pub mod game_logic;
pub mod graph;
pub mod human;
pub mod moves;
pub mod nodes;
pub mod render;
pub mod row;
pub mod search_tree;
pub mod slide;
pub mod spawn;
pub mod tables;
