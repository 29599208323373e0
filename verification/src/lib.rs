//! The deterministic core of a small real-time strategy game.

pub mod ai;
pub mod audio;
pub mod building;
pub mod cmd;
pub mod combat;
pub mod economy;
pub mod fog;
pub mod font;
pub mod frame;
pub mod front;
pub mod fx;
pub mod gfx;
pub mod ground;
pub mod heap;
pub mod hud;
pub mod input;
pub mod kind;
pub mod link;
pub mod lobby;
pub mod lockstep;
pub mod menu;
pub mod minimap;
pub mod motion;
pub mod num;
pub mod orders;
pub mod owners;
pub mod path;
pub mod query;
pub mod rng;
pub mod route;
pub mod rules;
pub mod scene;
pub mod screen;
pub mod select;
pub mod start;
pub mod table;
pub mod terrain;
pub mod text;
pub mod theme;
pub mod tick;
pub mod view;
pub mod watch;
pub mod wire;
pub mod world;
