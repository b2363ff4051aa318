pub mod text;
pub mod clock;
pub mod cron;
pub mod reminder;
pub mod font;
pub mod render;
pub mod mascot;
pub mod ui;
pub mod cli;
