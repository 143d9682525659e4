//! The thinking half of an enchanted diary.
//!
//! One writes on the page with the pen. After a pause the diary drinks the ink, and an answer
//! writes itself onto the page in a flowing hand, then fades. This crate decides what happens
//! when: it is told what was found, by pen, letter box and clock, and answers with what to do.
//! It touches no device itself.
pub mod args;
pub mod bleed;
pub mod commit;
pub mod diary;
pub mod draw;
pub mod fb;
pub mod font;
pub mod memory;
pub mod noise;
pub mod oracle;
pub mod outline;
pub mod pen;
pub mod plan;
pub mod power;
pub mod reply;
pub mod single;
pub mod sound;
pub mod stab;
pub mod step;
pub mod surface;
pub mod table;
pub mod text;
