//! Where an expert's bytes come from.

use std::collections::BTreeMap;
use vstd::prelude::*;

use crate::experts::plan::Plan;
use crate::mapping::Mapping;

verus! {

/// What holds the bytes: a copy landed on the host, or the artifact itself.
#[derive(Debug, Clone, Copy, PartialEq, Eq, Structural)]
pub enum Bytes {
    Landed,
    Artifact,
}

/// A source of bands: how long it is, whether it is a file, what its file
/// takes on disk and under how many names, where that is known, and where
/// each band's plane starts in it.
#[derive(Debug)]
pub struct Source {
    pub bytes: Bytes,
    pub len: u64,
    pub filed: bool,
    pub backed: Option<u64>,
    pub links: Option<u64>,
    pub bands: BTreeMap<usize, u64>,
}

impl Source {
    /// Bytes landed on the host in the order a plan lays them.
    pub fn landed(
        plan: &Plan,
        len: u64,
        filed: bool,
        backed: Option<u64>,
        links: Option<u64>,
    ) -> (source: Source)
        ensures
            source.bytes == Bytes::Landed,
            source.len == len && source.filed == filed,
            source.backed == backed && source.links == links,
            source.bands@ == plan.host_of@,
    {
        Source {
            bytes: Bytes::Landed,
            len,
            filed,
            backed,
            links,
            bands: plan.host_of.clone(),
        }
    }

    /// Bytes landed on the host, their bands starting where they are said to.
    pub fn from_host(
        len: u64,
        filed: bool,
        backed: Option<u64>,
        links: Option<u64>,
        bands: BTreeMap<usize, u64>,
    ) -> (source: Source)
        ensures
            source == (Source { bytes: Bytes::Landed, len, filed, backed, links, bands }),
    {
        Source { bytes: Bytes::Landed, len, filed, backed, links, bands }
    }

    /// The artifact as it is mapped.
    pub fn artifact(
        map: &Mapping,
        backed: Option<u64>,
        links: Option<u64>,
        bands: BTreeMap<usize, u64>,
    ) -> (source: Source)
        ensures
            source == (Source {
                bytes: Bytes::Artifact,
                len: map.len,
                filed: true,
                backed,
                links,
                bands,
            }),
    {
        Source { bytes: Bytes::Artifact, len: map.len, filed: true, backed, links, bands }
    }

    pub fn kind(&self) -> (kind: &'static str)
        ensures
            kind@ == match self.bytes {
                Bytes::Landed => "landed"@,
                Bytes::Artifact => "artifact"@,
            },
    {
        match self.bytes {
            Bytes::Landed => "landed",
            Bytes::Artifact => "artifact",
        }
    }

    /// What its file takes on disk, and under how many names, where both are
    /// known.
    pub fn backing(&self) -> (backing: Option<(u64, u64)>)
        ensures
            backing == match (self.backed, self.links) {
                (Some(bytes), Some(links)) => Some((bytes, links)),
                _ => None,
            },
    {
        match (self.backed, self.links) {
            (Some(bytes), Some(links)) => Some((bytes, links)),
            _ => None,
        }
    }

    /// Where parameter `param` starts.
    pub fn at(&self, param: usize) -> (at: Option<u64>)
        ensures
            at == if self.bands@.contains_key(param) { Some(self.bands@[param]) } else { None },
    {
        match self.bands.get(&param) {
            Some(at) => Some(*at),
            None => None,
        }
    }

    /// The bytes `from` on, `len` of them, if the source has them all: from
    /// which one to which.
    pub fn get(&self, from: usize, len: usize) -> (range: Option<(usize, usize)>)
        ensures
            range == if from + len <= usize::MAX && from + len <= self.len {
                Some((from, (from + len) as usize))
            } else {
                None
            },
    {
        match from.checked_add(len) {
            Some(end) => if end as u64 <= self.len {
                Some((from, end))
            } else {
                None
            },
            None => None,
        }
    }

    pub fn len(&self) -> (len: u64)
        ensures
            len == self.len,
    {
        self.len
    }
}

} // verus!
