//! The logic of a wrapper around terminal programs: it keeps the screen of the
//! program, highlights what matches given patterns, rewrites or masks output,
//! exchanges keys, and takes screenshots.
//!
//! `session` ties everything together. It feeds the output of the program to a
//! terminal (`boundary`), reads and rewrites its cells (`cells`, `transform`),
//! looks for patterns (`highlight`), tells what is new (`trigger`), and says how
//! to draw it (`draw`) or to save it (`svg`); `paint` says what a terminal shows of
//! what is drawn. `passthrough` finds the control sequences that the real terminal
//! has to see, and `input` works off keys.
//! `dispatch` decides what is done about new matches, and `capture` names the
//! files. `config`, `bindings`, `keys` and `color` read the command line, with
//! the errors of `error`; `template` and `text` are what they share.

pub mod bindings;
pub mod boundary;
pub mod capture;
pub mod cells;
pub mod color;
pub mod config;
pub mod dispatch;
pub mod draw;
pub mod error;
pub mod highlight;
pub mod input;
pub mod keys;
pub mod model;
pub mod paint;
pub mod passthrough;
pub mod session;
pub mod svg;
pub mod template;
pub mod text;
pub mod transform;
pub mod trigger;
