//! The host-access limits of an evaluation environment: which programs may
//! be run and which TCP endpoints may be connected to or listened on.
//! `None` is the trusted native default, where everything is allowed;
//! `Some` of an empty list denies everything.
use vstd::prelude::*;
use crate::text::str_eq;

verus! {

/// An IP address and port: `v6` tells the two address families apart, and
/// `address` holds the address's bits (32 of them for IPv4).
#[derive(Clone, Copy, Debug, PartialEq, Eq, Structural)]
pub struct Endpoint {
    pub v6: bool,
    pub address: u128,
    pub port: u16,
}

/// The limits; absent lists allow everything.
pub struct Limits {
    process_allowlist: Option<Vec<String>>,
    tcp_connect_allow: Option<Vec<Endpoint>>,
    tcp_listen_allow: Option<Vec<Endpoint>>,
}

pub struct LimitsView {
    pub process_allowlist: Option<Seq<Seq<char>>>,
    pub tcp_connect_allow: Option<Seq<Endpoint>>,
    pub tcp_listen_allow: Option<Seq<Endpoint>>,
}

pub open spec fn names_of(v: Seq<String>) -> Seq<Seq<char>> {
    Seq::new(v.len(), |i: int| v[i]@)
}

/// Whether an optional allow list admits `x`.
pub open spec fn admits<T>(list: Option<Seq<T>>, x: T) -> bool {
    match list {
        None => true,
        Some(l) => l.contains(x),
    }
}

impl Limits {
    pub closed spec fn view(&self) -> LimitsView {
        LimitsView {
            process_allowlist: match &self.process_allowlist {
                Some(v) => Some(names_of(v@)),
                None => None,
            },
            tcp_connect_allow: match &self.tcp_connect_allow {
                Some(v) => Some(v@),
                None => None,
            },
            tcp_listen_allow: match &self.tcp_listen_allow {
                Some(v) => Some(v@),
                None => None,
            },
        }
    }

    /// No limits: the trusted native profile.
    pub fn new() -> (r: Limits)
        ensures
            r@.process_allowlist is None,
            r@.tcp_connect_allow is None,
            r@.tcp_listen_allow is None,
    {
        Limits { process_allowlist: None, tcp_connect_allow: None, tcp_listen_allow: None }
    }

    /// Restricts process execution to exactly these program names.
    pub fn with_process_allowlist(self, programs: Vec<String>) -> (r: Limits)
        ensures
            r@.process_allowlist == Some(names_of(programs@)),
            r@.tcp_connect_allow == self@.tcp_connect_allow,
            r@.tcp_listen_allow == self@.tcp_listen_allow,
    {
        Limits { process_allowlist: Some(programs), ..self }
    }

    /// Restricts outbound TCP connects to exactly these endpoints.
    pub fn with_tcp_connect_allow(self, destinations: Vec<Endpoint>) -> (r: Limits)
        ensures
            r@.tcp_connect_allow == Some(destinations@),
            r@.process_allowlist == self@.process_allowlist,
            r@.tcp_listen_allow == self@.tcp_listen_allow,
    {
        Limits { tcp_connect_allow: Some(destinations), ..self }
    }

    /// Restricts TCP listeners to exactly these endpoints.
    pub fn with_tcp_listen_allow(self, destinations: Vec<Endpoint>) -> (r: Limits)
        ensures
            r@.tcp_listen_allow == Some(destinations@),
            r@.process_allowlist == self@.process_allowlist,
            r@.tcp_connect_allow == self@.tcp_connect_allow,
    {
        Limits { tcp_listen_allow: Some(destinations), ..self }
    }

    /// Whether `program` may be run.
    pub fn is_process_allowed(&self, program: &str) -> (b: bool)
        ensures
            b == admits(self@.process_allowlist, program@),
    {
        match &self.process_allowlist {
            None => true,
            Some(programs) => {
                let ghost names = names_of(programs@);
                let mut i: usize = 0;
                assert(self@.process_allowlist == Some(names));
                while i < programs.len()
                    invariant
                        i <= programs@.len(),
                        names == names_of(programs@),
                        self@.process_allowlist == Some(names),
                        forall|j: int| 0 <= j < i ==> names[j] != program@,
                    decreases programs.len() - i,
                {
                    if str_eq(programs[i].as_str(), program) {
                        assert(names[i as int] == program@);
                        assert(names.contains(program@));
                        assert(self@.process_allowlist == Some(names));
                        return true;
                    }
                    i += 1;
                }
                proof {
                    assert(!names.contains(program@));
                }
                false
            },
        }
    }

    /// Whether a TCP connection to `endpoint` may be opened.
    pub fn is_tcp_connect_allowed(&self, endpoint: Endpoint) -> (b: bool)
        ensures
            b == admits(self@.tcp_connect_allow, endpoint),
    {
        match &self.tcp_connect_allow {
            None => true,
            Some(list) => listed(list, endpoint),
        }
    }

    /// Whether a TCP listener on `endpoint` may be opened.
    pub fn is_tcp_listen_allowed(&self, endpoint: Endpoint) -> (b: bool)
        ensures
            b == admits(self@.tcp_listen_allow, endpoint),
    {
        match &self.tcp_listen_allow {
            None => true,
            Some(list) => listed(list, endpoint),
        }
    }
}

fn listed(list: &Vec<Endpoint>, endpoint: Endpoint) -> (b: bool)
    ensures
        b == list@.contains(endpoint),
{
    let mut i: usize = 0;
    while i < list.len()
        invariant
            i <= list@.len(),
            forall|j: int| 0 <= j < i ==> list@[j] != endpoint,
        decreases list.len() - i,
    {
        if list[i] == endpoint {
            assert(list@[i as int] == endpoint);
            return true;
        }
        i += 1;
    }
    false
}

} // verus!
