//! Raw multi-touch contact data of a touchpad, decoded and drawn.
//!
//! A touchpad reports its fingers through HID reports whose layout its report
//! descriptor defines. [`decoder`] turns one raw input message into the
//! contacts of each report that it holds, and [`debug_render`] draws the
//! contacts as a character grid for the terminal. Nothing here talks to the
//! system: the decoder says what it needs to be told, and a frame is a string.

pub mod axis;
pub mod binary32;
pub mod contact;
pub mod debug_render;
pub mod decoder;
pub mod decoder_laws;
pub mod frame_laws;
pub mod hid;
pub mod screen_laws;
pub mod text;
pub mod window;
