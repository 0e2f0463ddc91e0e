pub mod cell;
pub mod game;
pub mod laws;
pub mod layout;
pub mod route;
pub mod scene;
pub mod search;
pub mod state;
pub mod table;
