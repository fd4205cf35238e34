//! Android sparse images and the Fastboot protocol.
//!
//! The crate holds the logic needed to flash an Android device over USB: the
//! codec of the sparse image container, the planner that cuts an image into
//! fragments that each fit the device's download limit, the Fastboot
//! commands and responses, and the bookkeeping of a download.  It performs no
//! I/O itself: a transport feeds it bytes and carries out what it decides.
//!
//! * [`sparse`] reads and writes the headers of a sparse image, over the
//!   little-endian integers of [`wire`].
//! * [`split`] cuts an image into fragments.  [`plan`] states which
//!   fragments those are, [`fragments`] measures them, and [`split_lemmas`]
//!   and [`expand`] prove what holds of them: that each fits, and that
//!   together they write what the image writes.
//! * [`protocol`] writes commands and reads responses.
//! * [`client`] picks the interface and the endpoints of a device, and says
//!   what a response means for the command that is running.
//! * [`download`] collects the data of a download in the transfer buffers
//!   of [`buffer`].

pub mod buffer;
pub mod client;
pub mod download;
pub mod expand;
pub mod fragments;
pub mod plan;
pub mod protocol;
pub mod sparse;
pub mod split;
pub mod split_lemmas;
pub mod wire;
