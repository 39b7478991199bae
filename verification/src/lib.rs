//! AddonForge core library.
use vstd::prelude::*;

pub mod text;
pub mod num;
pub mod sources;
pub mod wow;
pub mod order;
pub mod catalog;
pub mod state;
pub mod packages;
pub mod selfupdate;
pub mod install;
pub mod place;
pub mod log;
pub mod icons;
pub mod commands;
pub mod deps;
pub mod images;
pub mod addonlist;
