//! The identity of a network: its worker id, its routing group and the
//! addresses it listens on.
//!
//! The unicast address is `poll://uni@{group}/{pid}` and the anycast address
//! `poll://any@{group}`. A target resolves to the anycast address of that group,
//! and a message is delivered to the network whose address equals the message's
//! address.

use vstd::prelude::*;
use crate::records::Text;
use crate::text::{concat, concat3, copied, digits, hex_text};

verus! {

/// The anycast address of a group.
pub open spec fn anycast_of(group: Text) -> Text {
    "poll://any@"@ + group
}

/// The unicast address of a worker of a group.
pub open spec fn unicast_of(group: Text, pid: Text) -> Text {
    "poll://uni@"@ + group + "/"@ + pid
}

/// Who a network is.
#[derive(Debug, PartialEq, Eq)]
pub struct Identity {
    /// The worker id.
    pub pid: String,
    /// The routing group.
    pub group: String,
    /// The unicast address.
    pub unicast: String,
    /// The anycast address.
    pub anycast: String,
}

/// The choices of a network's identity.
#[derive(Debug, PartialEq, Eq)]
pub struct IdentityBuilder {
    /// The worker id, where it is chosen.
    pub pid: Option<String>,
    /// The routing group, where it is chosen.
    pub group: Option<String>,
}

/// The address that a target resolves to: the anycast address of the group of
/// that name.
pub fn target_resolver(target: &str) -> (r: String)
    ensures
        r@ == anycast_of(target@),
{
    concat("poll://any@", target)
}

impl IdentityBuilder {
    /// Nothing is chosen.
    pub fn new() -> (r: Self)
        ensures
            r.pid is None,
            r.group is None,
    {
        IdentityBuilder { pid: None, group: None }
    }

    /// The worker id. Defaults to a generated id.
    #[must_use]
    pub fn pid(self, pid: String) -> (r: Self)
        ensures
            r == (IdentityBuilder { pid: Some(pid), ..self }),
    {
        IdentityBuilder { pid: Some(pid), group: self.group }
    }

    /// The routing group. Defaults to `"default"`.
    #[must_use]
    pub fn group(self, group: String) -> (r: Self)
        ensures
            r == (IdentityBuilder { group: Some(group), ..self }),
    {
        IdentityBuilder { pid: self.pid, group: Some(group) }
    }

    /// The identity, with `generated` as the worker id where none is chosen.
    pub fn build(self, generated: String) -> (r: Identity)
        ensures
            r.pid@ == (match self.pid {
                Some(pid) => pid@,
                None => generated@,
            }),
            r.group@ == (match self.group {
                Some(group) => group@,
                None => "default"@,
            }),
            r.unicast@ == unicast_of(r.group@, r.pid@),
            r.anycast@ == anycast_of(r.group@),
    {
        let pid = match self.pid {
            Some(pid) => pid,
            None => generated,
        };
        let group = match self.group {
            Some(group) => group,
            None => copied("default"),
        };
        let host = concat3("poll://uni@", &group, "/");
        Identity { unicast: concat(&host, &pid), anycast: target_resolver(&group), pid, group }
    }
}

/// A worker id of a process, a time in nanoseconds and a count, each in
/// hexadecimal digits.
pub fn generated_pid(process: u32, nanos: u128, n: u64) -> (r: String)
    ensures
        r@ == digits(process as nat, 16) + digits(nanos as nat, 16) + digits(n as nat, 16),
{
    let process = hex_text(process as u128);
    let nanos = hex_text(nanos);
    let n = hex_text(n as u128);
    concat3(&process, &nanos, &n)
}

} // verus!
