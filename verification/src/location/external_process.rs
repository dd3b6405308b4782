//! Clients outside of the program, and the ports through which they are reached.
use super::key::LocationKey;
use core::marker::PhantomData;
use vstd::prelude::*;

verus! {

/// A process outside of the program.
pub struct External<Tag> {
    pub key: LocationKey,
    pub tag: PhantomData<Tag>,
}

/// Marks a port for one client.
pub enum NotMany {
    Marker,
}

/// Marks a port for any number of clients.
pub enum Many {
    Marker,
}

/// A port for raw bytes.
pub struct ExternalBytesPort<Clients> {
    pub process_key: LocationKey,
    pub port_id: usize,
    pub clients: PhantomData<Clients>,
}

/// A port on which an external process sends values.
pub struct ExternalBincodeSink<T, Clients, O, R> {
    pub process_key: LocationKey,
    pub port_id: usize,
    pub markers: PhantomData<(T, Clients, O, R)>,
}

/// A port on which values go both ways.
pub struct ExternalBincodeBidi<InT, OutT, Clients> {
    pub process_key: LocationKey,
    pub port_id: usize,
    pub markers: PhantomData<(InT, OutT, Clients)>,
}

/// The sending end of a simulated input.
pub struct SimSender<T, O, R> {
    pub port_id: usize,
    pub markers: PhantomData<(T, O, R)>,
}

} // verus!
