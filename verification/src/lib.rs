//! The decisions of a screen-brightness controller, stated and proved.
//!
//! A backlight device is a directory that holds two small text files: the
//! current raw brightness and the largest raw brightness the device accepts.
//! This crate turns the bytes of those files into a
//! [`controller::Controller`], converts between percentages and raw values
//! in exact integer arithmetic, and produces the bytes to write back. It
//! performs no I/O of its own: the caller reads the files and writes the
//! bytes.
//!
//! * [`decimal`] reads and writes the numbers of the device files.
//! * [`percent`] holds the arithmetic of percentages and raw values.
//! * [`device`] says what a device opens as, by the contents of its files.
//! * [`controller`] opens devices and applies changes of brightness.
//! * [`verbosity`] turns the counts of two command line flags into a level
//!   of logging.

pub mod controller;
pub mod decimal;
pub mod device;
pub mod percent;
mod scan;
pub mod verbosity;
