//! Codecs for the binary asset formats of a GameCube-era racing game:
//! single GVR textures, GVR texture archives, and PackMan container
//! archives. Every codec is a pure transformation between byte buffers
//! and in-memory archive values; reading a file and writing one back
//! are left to the caller.

use vstd::prelude::*;

pub mod endian;
pub mod gvr_texture;
pub mod packman_archive;
pub mod texture_archive;
pub mod util;

verus! {

/// How a byte buffer can fail to be decoded as one of the archive formats.
#[derive(Clone, Copy, Debug, PartialEq, Eq, Structural)]
pub enum FormatError {
    /// The buffer is shorter than a read demands.
    UnexpectedEof,
    /// A GVR magic marker does not match.
    InvalidMagic,
    /// A structural invariant of the archive is violated.
    InvalidArchive,
    /// A texture name holds a byte that is not printable ASCII or whitespace.
    InvalidName,
}

} // verus!
