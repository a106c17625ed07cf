//! kexplore's core logic: command-line parsing, the URL-bar text field and
//! its key handling, the open-with handler configuration, path navigation,
//! the node tree and its arena, the glyph atlas packer, the choices made when
//! a presentation surface is set up, and the bookkeeping of draw batches,
//! uploads, preview textures, pointer buttons and key repeat, each with its
//! contract.

pub mod cli;
pub mod handlers;
pub mod keyboard;
pub mod model;
pub mod navigate;
pub mod pointer;
pub mod preview;
pub mod render;
pub mod shader;
pub mod surface;
pub mod text;
pub mod textfield;
pub mod textures;
pub mod ui;
pub mod upload;
pub mod urlbar;
