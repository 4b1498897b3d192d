//! How far behind the keys the instrument is.
//!
//! Times are nanoseconds since the program began.
use vstd::prelude::*;
use crate::capture;
use crate::gate::EdgeKind;

verus! {

/// How long after one report of lag the next comes at the earliest, unless the lag is great.
pub const LAG_EVERY_NS: u64 = 2_000_000_000;

/// The edges of one turn, and how late they were taken in.
#[derive(Debug, Clone, Copy, PartialEq, Eq, Structural)]
pub struct Lag {
    pub edges: u64,
    pub updates: u64,
    pub downup: u64,
    pub max_ms: u64,
    /// How many were late by 50 milliseconds or more, and by 200.
    pub over50: u64,
    pub over200: u64,
}

/// One more than `n`, where `also` holds; a count stays at the greatest number.
pub open spec fn counted(n: u64, also: bool) -> u64 {
    if also && n < u64::MAX {
        (n + 1) as u64
    } else {
        n
    }
}

fn count(n: u64, also: bool) -> (r: u64)
    ensures
        r == counted(n, also),
{
    if also && n < u64::MAX {
        n + 1
    } else {
        n
    }
}

impl Lag {
    pub fn new() -> (r: Self)
        ensures
            r == (Lag { edges: 0, updates: 0, downup: 0, max_ms: 0, over50: 0, over200: 0 }),
    {
        Lag { edges: 0, updates: 0, downup: 0, max_ms: 0, over50: 0, over200: 0 }
    }

    /// Counts an edge that was at `edge_ns` and is taken in at `loop_ns`, and returns by how
    /// many milliseconds it is late.
    pub fn note(&mut self, kind: EdgeKind, edge_ns: u64, loop_ns: u64) -> (r: u64)
        ensures
            r == capture::ms_between(edge_ns, loop_ns),
            *final(self) == (Lag {
                edges: counted(old(self).edges, true),
                updates: counted(old(self).updates, kind == EdgeKind::Update),
                downup: counted(old(self).downup, kind != EdgeKind::Update),
                max_ms: if r > old(self).max_ms {
                    r
                } else {
                    old(self).max_ms
                },
                over50: counted(old(self).over50, r >= 50),
                over200: counted(old(self).over200, r >= 200),
            }),
    {
        let late: u64 = capture::ms_since(edge_ns, loop_ns);
        self.edges = count(self.edges, true);
        self.updates = count(self.updates, kind == EdgeKind::Update);
        self.downup = count(self.downup, kind != EdgeKind::Update);
        if late > self.max_ms {
            self.max_ms = late;
        }
        self.over50 = count(self.over50, late >= 50);
        self.over200 = count(self.over200, late >= 200);
        late
    }

    /// Whether the lag is to be reported: it is 50 milliseconds or more, and either 500 or
    /// more, or the last report is two seconds old.
    pub fn is_reported(&self, last_ns: Option<u64>, now_ns: u64) -> (r: bool)
        ensures
            r == (self.edges > 0 && self.max_ms >= 50 && (self.max_ms >= 500 || (match last_ns {
                Some(t) => now_ns - t >= 2_000_000_000,
                None => true,
            }))),
    {
        if self.edges == 0 || self.max_ms < 50 {
            return false;
        }
        if self.max_ms >= 500 {
            return true;
        }
        match last_ns {
            Some(t) => now_ns >= t && now_ns - t >= LAG_EVERY_NS,
            None => true,
        }
    }
}

/// A count goes up by one where it is to, and stays at the greatest number.
pub proof fn counts_go_up_by_one(n: u64)
    ensures
        counted(n, false) == n,
        n < u64::MAX ==> counted(n, true) == n + 1,
        counted(u64::MAX, true) == u64::MAX,
{
}

} // verus!
