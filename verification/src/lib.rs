//! The asset workbench's verified core.
pub mod assemble;
pub mod browse;
pub mod bundle;
pub mod bytes;
pub mod changes;
pub mod checks;
pub mod config;
pub mod dlc;
pub mod geometry;
pub mod glb;
pub mod hierarchy;
pub mod icons;
pub mod mesh_body;
pub mod meshload;
pub mod messages;
pub mod number;
pub mod objects;
pub mod overlay;
pub mod pages;
pub mod publish;
pub mod release;
pub mod resolve;
pub mod session;
pub mod settings;
pub mod strings;
pub mod text;
pub mod values;
