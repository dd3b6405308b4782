//! Building a program: its locations, and the roots of its plan.
use super::ir::HydroRoot;
use crate::location::cluster::Cluster;
use crate::location::dynamic::DynLocation;
use crate::location::external_process::External;
use crate::location::key::{decimal, index_of, lemma_read_decimal, version_of, LocationKey};
use crate::location::process::Process;
use crate::location::tick::Tick;
use crate::text::{decimal_text, text_of_parts};
use core::marker::PhantomData;
use vstd::prelude::*;

verus! {

/// A program under construction.
pub struct FlowBuilder {
    /// How many rounds a run of the program is followed for.
    pub horizon: usize,
    /// How the code of the program names the crate of the runtime.
    pub crate_root: String,
    pub next_location: u32,
    pub next_clock_id: usize,
    pub next_cycle_id: usize,
    pub next_external_port: usize,
    pub roots: Vec<HydroRoot>,
}

/// The key of the `n`-th location.
pub open spec fn nth_key(n: u32) -> LocationKey {
    LocationKey { ffi: (0x1_0000_0000u64 | (n as u64)) | 0x1_0000_0000 }
}

/// The name of the cycle with the given number.
pub open spec fn cycle_ident(id: usize) -> Seq<char> {
    "cycle_"@ + decimal(id as nat)
}

impl FlowBuilder {
    /// An empty program whose runs are followed for the given number of rounds.
    pub fn new(horizon: usize) -> (r: Self)
        requires
            horizon >= 1,
        ensures
            r.horizon == horizon,
            r.crate_root@ == "hydro_lang"@,
            r.next_location == 1,
            r.next_clock_id == 0,
            r.next_cycle_id == 0,
            r.next_external_port == 0,
            r.roots@ == Seq::<HydroRoot>::empty(),
    {
        FlowBuilder {
            horizon,
            crate_root: "hydro_lang".to_owned(),
            next_location: 1,
            next_clock_id: 0,
            next_cycle_id: 0,
            next_external_port: 0,
            roots: Vec::new(),
        }
    }

    /// Lets the code of the program name the crate of the runtime like this.
    pub fn with_crate_root(self, crate_root: &str) -> (r: Self)
        ensures
            r.crate_root@ == crate_root@,
            r == (FlowBuilder { crate_root: r.crate_root, ..self }),
    {
        FlowBuilder { crate_root: crate_root.to_owned(), ..self }
    }

    /// A key that no location has yet.
    fn next_key(&mut self) -> (r: LocationKey)
        requires
            old(self).next_location < u32::MAX,
        ensures
            r == nth_key(old(self).next_location),
            *final(self) == (FlowBuilder {
                next_location: (old(self).next_location + 1) as u32,
                ..*old(self)
            }),
    {
        let n: u32 = self.next_location;
        self.next_location = n + 1;
        LocationKey::from_ffi(0x1_0000_0000u64 | (n as u64))
    }

    /// A new process.
    pub fn process<P>(&mut self) -> (r: Process<P>)
        requires
            old(self).next_location < u32::MAX,
            old(self).horizon >= 1,
        ensures
            r.key == nth_key(old(self).next_location),
            r.horizon == old(self).horizon,
            *final(self) == (FlowBuilder {
                next_location: (old(self).next_location + 1) as u32,
                ..*old(self)
            }),
    {
        let key = self.next_key();
        Process { key, horizon: self.horizon, tag: PhantomData }
    }

    /// A new cluster.
    pub fn cluster<C>(&mut self) -> (r: Cluster<C>)
        requires
            old(self).next_location < u32::MAX,
            old(self).horizon >= 1,
        ensures
            r.key == nth_key(old(self).next_location),
            r.horizon == old(self).horizon,
            *final(self) == (FlowBuilder {
                next_location: (old(self).next_location + 1) as u32,
                ..*old(self)
            }),
    {
        let key = self.next_key();
        Cluster { key, horizon: self.horizon, tag: PhantomData }
    }

    /// A new external process.
    pub fn external<E>(&mut self) -> (r: External<E>)
        requires
            old(self).next_location < u32::MAX,
        ensures
            r.key == nth_key(old(self).next_location),
            *final(self) == (FlowBuilder {
                next_location: (old(self).next_location + 1) as u32,
                ..*old(self)
            }),
    {
        let key = self.next_key();
        External { key, tag: PhantomData }
    }

    /// A new clock at the location.
    pub fn next_tick<L: DynLocation>(&mut self, location: &L) -> (r: Tick<L>)
        requires
            old(self).next_clock_id < usize::MAX,
        ensures
            r == (Tick { id: old(self).next_clock_id, l: *location }),
            *final(self) == (FlowBuilder {
                next_clock_id: (old(self).next_clock_id + 1) as usize,
                ..*old(self)
            }),
    {
        let id: usize = self.next_clock_id;
        self.next_clock_id = id + 1;
        Tick { id, l: location.dup() }
    }

    /// A port that no client has yet.
    pub fn next_port(&mut self) -> (r: usize)
        requires
            old(self).next_external_port < usize::MAX,
        ensures
            r == old(self).next_external_port,
            *final(self) == (FlowBuilder {
                next_external_port: (old(self).next_external_port + 1) as usize,
                ..*old(self)
            }),
    {
        let id: usize = self.next_external_port;
        self.next_external_port = id + 1;
        id
    }

    /// The name of a new cycle.
    pub fn next_cycle(&mut self) -> (r: String)
        requires
            old(self).next_cycle_id < usize::MAX,
        ensures
            r@ == cycle_ident(old(self).next_cycle_id),
            *final(self) == (FlowBuilder {
                next_cycle_id: (old(self).next_cycle_id + 1) as usize,
                ..*old(self)
            }),
    {
        let id: usize = self.next_cycle_id;
        self.next_cycle_id = id + 1;
        proof {
            reveal_strlit("");
        }
        let r = text_of_parts("cycle_", decimal_text(id).as_str(), "");
        assert(r@ =~= cycle_ident(id));
        r
    }

    /// Adds a root to the plan.
    pub fn push_root(&mut self, root: HydroRoot)
        ensures
            final(self).roots@ == old(self).roots@.push(root),
            final(self).same_counters(*old(self)),
    {
        self.roots.push(root);
    }

    /// Whether nothing but the roots differs.
    pub open spec fn same_counters(self, other: FlowBuilder) -> bool {
        &&& self.horizon == other.horizon
        &&& self.crate_root == other.crate_root
        &&& self.next_location == other.next_location
        &&& self.next_clock_id == other.next_clock_id
        &&& self.next_cycle_id == other.next_cycle_id
        &&& self.next_external_port == other.next_external_port
    }
}

/// No two locations have the same key, and no two cycles have the same name.
pub proof fn law_names_differ(a: u32, b: u32, m: usize, n: usize)
    ensures
        nth_key(a) == nth_key(b) ==> a == b,
        cycle_ident(m) == cycle_ident(n) ==> m == n,
{
    let (x, y) = (a as u64, b as u64);
    assert(((0x1_0000_0000u64 | x) | 0x1_0000_0000 == (0x1_0000_0000u64 | y) | 0x1_0000_0000)
        ==> x == y) by (bit_vector)
        requires
            x <= 0xffff_ffff,
            y <= 0xffff_ffff,
    ;
    if cycle_ident(m) == cycle_ident(n) {
        let k = "cycle_"@.len() as int;
        assert(cycle_ident(m).skip(k) =~= decimal(m as nat));
        assert(cycle_ident(n).skip(k) =~= decimal(n as nat));
        lemma_read_decimal(m as nat);
        lemma_read_decimal(n as nat);
    }
}

/// Locations are numbered by the index of their keys, and are all of the first version.
pub proof fn law_nth_key(n: u32)
    ensures
        index_of(nth_key(n).ffi) == n,
        version_of(nth_key(n).ffi) == 1,
{
    let x = n as u64;
    let ffi = (0x1_0000_0000u64 | x) | 0x1_0000_0000;
    assert(ffi & 0xffff_ffff == x && (ffi >> 32) | 1 == 1) by (bit_vector)
        requires
            x <= 0xffff_ffff,
            ffi == (0x1_0000_0000u64 | x) | 0x1_0000_0000,
    ;
}

} // verus!
