//! The permission resolver: may this author run admin commands here?
//!
//! The decision is made from plain values the platform layer hands in: the
//! kind of channel the message arrived in, the author's id, the server
//! owner's id, and — when the store has admin roles configured — the
//! author's own role memberships. The resolver itself performs no platform
//! calls: when it needs the author's member record it says so, and the
//! caller fetches it and finishes the decision.

use vstd::prelude::*;
use crate::registry::AdminRoleRegistry;

verus! {

/// The kind of channel a message arrived in, as the platform resolved it.
#[derive(Clone, Copy, Debug, PartialEq, Eq, Structural)]
pub enum ChannelKind {
    /// A direct (one-to-one) channel.
    Private,
    /// A group channel outside any server.
    Group,
    /// A public channel of a server, with that server's id and owner id.
    Public { server: u64, owner: u64 },
    /// The platform could not resolve the channel.
    Unknown,
}

/// Why an admin command was not run.
#[derive(Clone, Copy, Debug, PartialEq, Eq, Structural)]
pub enum Denial {
    /// Admin commands make no sense in a private channel; the user is told so.
    PrivateChannel,
    /// Admin commands are not for group channels; the user is told so.
    GroupChannel,
    /// The channel could not be resolved; the user is told to retry.
    UnknownChannel,
    /// The author's member record could not be fetched; the user is told so.
    MemberUnavailable,
    /// The author holds no admin role: the command is dropped silently.
    NotAuthorized,
}

/// The resolver's verdict, or its request for the one platform lookup it
/// cannot make itself.
pub enum AuthStep {
    /// The author may run the command.
    Granted,
    /// The author may not; the reason says whether to reply.
    Refused(Denial),
    /// Admin roles are configured: the caller must fetch the author's member
    /// record and call `finish_authorization` with its role memberships.
    NeedMemberRoles { server: u64, admin_roles: Vec<u64> },
}

/// Whether some role id occurs in both lists.
pub fn roles_intersect(a: &Vec<u64>, b: &Vec<u64>) -> (r: bool)
    ensures
        r == exists|x: u64| a@.contains(x) && b@.contains(x),
{
    let n = a.len();
    for i in 0..n
        invariant
            n == a@.len(),
            forall|j: int| 0 <= j < i ==> !b@.contains(a@[j]),
    {
        if crate::registry::vec_contains(b, a[i]) {
            assert(a@.contains(a@[i as int]));
            return true;
        }
    }
    proof {
        if exists|x: u64| a@.contains(x) && b@.contains(x) {
            let x = choose|x: u64| a@.contains(x) && b@.contains(x);
            let j = choose|j: int| 0 <= j < a@.len() && a@[j] == x;
            assert(!b@.contains(a@[j]));
        }
    }
    false
}

/// The first step of authorization, from the channel kind, the author and
/// the store alone. A private, group or unresolved channel is refused with
/// its own explanation; in a public channel the server owner is granted
/// outright; otherwise the store decides: no configured admin roles means a
/// silent refusal, configured ones mean the author's member record is needed.
pub fn begin_authorization(kind: &ChannelKind, author: u64, registry: &AdminRoleRegistry) -> (r:
    AuthStep)
    requires
        registry.wf(),
    ensures
        match *kind {
            ChannelKind::Private => r == AuthStep::Refused(Denial::PrivateChannel),
            ChannelKind::Group => r == AuthStep::Refused(Denial::GroupChannel),
            ChannelKind::Unknown => r == AuthStep::Refused(Denial::UnknownChannel),
            ChannelKind::Public { server, owner } => {
                if author == owner {
                    r == AuthStep::Granted
                } else if registry@.contains_key(server) {
                    r matches AuthStep::NeedMemberRoles { server: s, admin_roles } && s == server
                        && admin_roles@ == registry@[server]
                } else {
                    r == AuthStep::Refused(Denial::NotAuthorized)
                }
            },
        },
{
    match kind {
        ChannelKind::Private => AuthStep::Refused(Denial::PrivateChannel),
        ChannelKind::Group => AuthStep::Refused(Denial::GroupChannel),
        ChannelKind::Unknown => AuthStep::Refused(Denial::UnknownChannel),
        ChannelKind::Public { server, owner } => {
            if author == *owner {
                AuthStep::Granted
            } else {
                match registry.get_admin_roles(*server) {
                    Some(admin_roles) => AuthStep::NeedMemberRoles {
                        server: *server,
                        admin_roles: admin_roles.clone(),
                    },
                    None => AuthStep::Refused(Denial::NotAuthorized),
                }
            }
        },
    }
}

/// The second step, once the author's member record was fetched: authorized
/// exactly when the member's roles intersect the configured admin roles; a
/// failed fetch is refused with an explanation.
pub fn finish_authorization(admin_roles: &Vec<u64>, member_roles: &Option<Vec<u64>>) -> (r:
    AuthStep)
    ensures
        match *member_roles {
            None => r == AuthStep::Refused(Denial::MemberUnavailable),
            Some(ref m) => if exists|x: u64| m@.contains(x) && admin_roles@.contains(x) {
                r == AuthStep::Granted
            } else {
                r == AuthStep::Refused(Denial::NotAuthorized)
            },
        },
{
    match member_roles {
        None => AuthStep::Refused(Denial::MemberUnavailable),
        Some(m) => {
            if roles_intersect(m, admin_roles) {
                AuthStep::Granted
            } else {
                AuthStep::Refused(Denial::NotAuthorized)
            }
        },
    }
}

/// The reply a refusal calls for: the exact explanation for the cases the
/// user is told about, and nothing for the silent one.
pub fn denial_text(d: &Denial) -> (r: Option<&'static str>)
    ensures
        match *d {
            Denial::PrivateChannel => r matches Some(s) && s@
                == "Sorry, but you cannot use the admin commands through PMs. They don't make much sense here anyways."@,
            Denial::GroupChannel => r matches Some(s) && s@ == "Admin commands in groups? Hm."@,
            Denial::UnknownChannel => r matches Some(s) && s@
                == "Huh, I couldn't get this channel's info for some reason. Try again I guess?"@,
            Denial::MemberUnavailable => r matches Some(s) && s@
                == "Sorry, I couldn't get your member info."@,
            Denial::NotAuthorized => r is None,
        },
{
    match d {
        Denial::PrivateChannel => Some(
            "Sorry, but you cannot use the admin commands through PMs. They don't make much sense here anyways.",
        ),
        Denial::GroupChannel => Some("Admin commands in groups? Hm."),
        Denial::UnknownChannel => Some(
            "Huh, I couldn't get this channel's info for some reason. Try again I guess?",
        ),
        Denial::MemberUnavailable => Some("Sorry, I couldn't get your member info."),
        Denial::NotAuthorized => None,
    }
}

} // verus!
