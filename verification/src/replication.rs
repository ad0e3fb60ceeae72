//! The decisions around replicated requests: which URLs a key goes to, when
//! a write counts as done, and what a volume does with the coordinator's
//! answer to its heartbeat. The caller sends the requests and reports back.
use crate::ring::strings_view;
use crate::text::{replica_url, replica_url_spec};
use vstd::prelude::*;

verus! {

/// The answer to a client's key request.
#[derive(PartialEq, Eq, Structural, Clone, Copy, Debug)]
pub enum KvReply {
    Success,
    NotFound,
    Unavailable,
}

/// The local-API URLs of a key on each of the given volumes, in order.
pub open spec fn replica_urls_spec(addrs: Seq<Seq<char>>, key: Seq<char>) -> Seq<Seq<char>> {
    addrs.map_values(|a: Seq<char>| replica_url_spec(a, key))
}

pub fn replica_urls(addrs: &Vec<String>, key: &str) -> (r: Vec<String>)
    ensures
        strings_view(r@) == replica_urls_spec(strings_view(addrs@), key@),
{
    let mut out: Vec<String> = Vec::new();
    let mut i: usize = 0;
    while i < addrs.len()
        invariant
            i <= addrs@.len(),
            strings_view(out@) == replica_urls_spec(strings_view(addrs@), key@).take(i as int),
        decreases addrs@.len() - i,
    {
        let u = replica_url(addrs[i].as_str(), key);
        let ghost before = out@;
        out.push(u);
        proof {
            assert(strings_view(out@) =~= strings_view(before).push(u@));
            assert(replica_urls_spec(strings_view(addrs@), key@).take(i + 1) =~= replica_urls_spec(
                strings_view(addrs@),
                key@,
            ).take(i as int).push(u@));
        }
        i = i + 1;
    }
    proof {
        assert(replica_urls_spec(strings_view(addrs@), key@).take(addrs@.len() as int)
            =~= replica_urls_spec(strings_view(addrs@), key@));
    }
    out
}

/// A write sent to every healthy replica of a key, counting acknowledgements.
pub struct QuorumWrite {
    urls: Vec<String>,
    quorum: usize,
    sent: usize,
    successes: usize,
}

pub struct QuorumModel {
    pub urls: Seq<Seq<char>>,
    pub quorum: nat,
    pub sent: nat,
    pub successes: nat,
}

impl View for QuorumWrite {
    type V = QuorumModel;

    closed spec fn view(&self) -> QuorumModel {
        QuorumModel {
            urls: strings_view(self.urls@),
            quorum: self.quorum as nat,
            sent: self.sent as nat,
            successes: self.successes as nat,
        }
    }
}

impl QuorumWrite {
    pub closed spec fn wf(&self) -> bool {
        self.successes <= self.sent <= self.urls@.len()
    }

    /// Plans a replicated write: `None` (the service is unavailable) when
    /// fewer healthy replicas than the quorum exist.
    pub fn plan(addrs: &Vec<String>, write_quorum: usize, key: &str) -> (r: Option<QuorumWrite>)
        ensures
            match r {
                None => addrs@.len() < write_quorum,
                Some(q) => {
                    &&& addrs@.len() >= write_quorum
                    &&& q.wf()
                    &&& q@ == (QuorumModel {
                        urls: replica_urls_spec(strings_view(addrs@), key@),
                        quorum: write_quorum as nat,
                        sent: 0,
                        successes: 0,
                    })
                },
            },
    {
        if addrs.len() < write_quorum {
            return None;
        }
        let urls = replica_urls(addrs, key);
        Some(QuorumWrite { urls, quorum: write_quorum, sent: 0, successes: 0 })
    }

    /// The URL to send to next, if any is left.
    pub fn next_url(&self) -> (r: Option<&String>)
        requires
            self.wf(),
        ensures
            match r {
                None => self@.sent == self@.urls.len(),
                Some(u) => self@.sent < self@.urls.len() && u@ == self@.urls[self@.sent as int],
            },
    {
        if self.sent < self.urls.len() {
            Some(&self.urls[self.sent])
        } else {
            None
        }
    }

    /// Records whether the replica last sent to accepted the write.
    pub fn record(&mut self, accepted: bool)
        requires
            old(self).wf(),
            old(self)@.sent < old(self)@.urls.len(),
        ensures
            final(self).wf(),
            final(self)@ == (QuorumModel {
                sent: old(self)@.sent + 1,
                successes: old(self)@.successes + if accepted {
                    1nat
                } else {
                    0nat
                },
                ..old(self)@
            }),
    {
        let n = self.urls.len();
        assert(self.successes < n);
        self.sent = self.sent + 1;
        if accepted {
            self.successes = self.successes + 1;
        }
    }

    /// The answer to the client: done when at least the quorum accepted.
    pub fn outcome(&self) -> (r: KvReply)
        ensures
            r == if self@.successes >= self@.quorum {
                KvReply::Success
            } else {
                KvReply::Unavailable
            },
    {
        if self.successes >= self.quorum {
            KvReply::Success
        } else {
            KvReply::Unavailable
        }
    }
}

/// A read tried on each healthy replica of a key in turn, until one hands
/// back the value.
pub struct ReplicaRead {
    urls: Vec<String>,
    next: usize,
    found: bool,
}

pub struct ReadModel {
    pub urls: Seq<Seq<char>>,
    pub next: nat,
    pub found: bool,
}

impl View for ReplicaRead {
    type V = ReadModel;

    closed spec fn view(&self) -> ReadModel {
        ReadModel { urls: strings_view(self.urls@), next: self.next as nat, found: self.found }
    }
}

impl ReplicaRead {
    pub closed spec fn wf(&self) -> bool {
        self.next <= self.urls@.len()
    }

    /// Plans a read of `key` from the given volumes, in order.
    pub fn plan(addrs: &Vec<String>, key: &str) -> (r: ReplicaRead)
        ensures
            r.wf(),
            r@.urls == replica_urls_spec(strings_view(addrs@), key@),
            r@.next == 0,
            !r@.found,
    {
        let urls = replica_urls(addrs, key);
        ReplicaRead { urls, next: 0, found: false }
    }

    /// The URL to ask next: none once a replica answered with the value or
    /// every replica was asked.
    pub fn next_url(&self) -> (u: Option<&String>)
        requires
            self.wf(),
        ensures
            u is Some <==> (!self@.found && self@.next < self@.urls.len()),
            u matches Some(x) ==> x@ == self@.urls[self@.next as int],
    {
        if !self.found && self.next < self.urls.len() {
            Some(&self.urls[self.next])
        } else {
            None
        }
    }

    /// Records whether the replica last asked handed back the value.
    pub fn record(&mut self, got_value: bool)
        requires
            old(self).wf(),
            !old(self)@.found,
            old(self)@.next < old(self)@.urls.len(),
        ensures
            final(self).wf(),
            final(self)@.next == old(self)@.next + 1,
            final(self)@.found == got_value,
            final(self)@.urls == old(self)@.urls,
    {
        let n = self.urls.len();
        assert(self.next < n);
        self.next = self.next + 1;
        self.found = got_value;
    }

    /// The answer to the client: the value when a replica had it, else not
    /// found.
    pub fn outcome(&self) -> (r: KvReply)
        ensures
            r == if self@.found {
                KvReply::Success
            } else {
                KvReply::NotFound
            },
    {
        if self.found {
            KvReply::Success
        } else {
            KvReply::NotFound
        }
    }
}

/// What a volume does after a heartbeat.
#[derive(PartialEq, Eq, Structural, Clone, Copy, Debug)]
pub enum HeartbeatResult {
    Alive,
    RegisterNeeded,
}

/// Whether an HTTP status is a success (200 to 299).
pub open spec fn is_success(status: u16) -> bool {
    200 <= status <= 299
}

pub fn status_is_success(status: u16) -> (r: bool)
    ensures
        r == is_success(status),
{
    200 <= status && status <= 299
}

/// The coordinator's answer to a heartbeat: success, or "unknown volume"
/// (404), which calls for registering again; any other status is an error.
pub fn classify_heartbeat(status: u16) -> (r: Result<HeartbeatResult, u16>)
    ensures
        r == if is_success(status) {
            Ok::<HeartbeatResult, u16>(HeartbeatResult::Alive)
        } else if status == 404 {
            Ok(HeartbeatResult::RegisterNeeded)
        } else {
            Err(status)
        },
{
    if status_is_success(status) {
        Ok(HeartbeatResult::Alive)
    } else if status == 404 {
        Ok(HeartbeatResult::RegisterNeeded)
    } else {
        Err(status)
    }
}

} // verus!
