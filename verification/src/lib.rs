//! Reassembly of whole files from an unordered stream of datagrams.
//!
//! A datagram is decoded into a [`packet::Packet`] by the packet module; the
//! [`file_manager::FileManager`] routes each decoded packet to the reassembly
//! group for its file identifier and reports when every known file is
//! complete.  Opening a socket, receiving buffers and writing the finished
//! files to storage are collaborators' work and live outside this crate.

pub mod file_manager;
pub mod packet;
