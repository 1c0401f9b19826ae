//! Engine-agnostic rules for a handful of small games, with their behaviour
//! stated as contracts and proved.

pub mod board;
pub mod game;
pub mod rng;
pub mod snake;
pub mod ticker;
pub mod text;
pub mod replay;
pub mod lockstep;
pub mod cards;
pub mod crafting;
pub mod combo;
pub mod achievements;
pub mod terrain;
pub mod behavior;
pub mod breakout;
pub mod npc;
pub mod frontend;
