//! A bounded directory-tree renderer.
//!
//! The crate draws a directory's contents as an indented tree, cut short by
//! three limits: how deep to descend, how many entries to show per
//! directory, and how many entries to show in all. It never touches the
//! file system itself: the renderer is a machine that says which directory
//! it wants listed next and turns each listing into finished lines.
//!
//! - [`utils`] holds the counter that each limit is kept with.
//! - [`config`] reads the command line into a configuration, and [`run`]
//!   says what a configuration leads to.
//! - [`render`] holds the renderer. [`walk`] is the renderer as its
//!   contracts see it, and [`layout`] is what a line looks like.
//! - [`tree`] says what the rendering of a whole tree is, [`tree_lemmas`]
//!   what holds of every such rendering, and [`follow`] that the renderer,
//!   listing by listing, yields exactly that rendering.
//! - [`text`] holds the operations on text that the others need.

pub mod config;
pub mod follow;
pub mod layout;
pub mod render;
pub mod run;
pub mod text;
pub mod tree;
pub mod tree_lemmas;
pub mod utils;
pub mod walk;
