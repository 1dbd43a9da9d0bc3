//! The concurrency guard: one reader/writer lock around the permission
//! store, giving many concurrent readers or one exclusive writer.
//!
//! A mutation holds the exclusive lock through the whole mutate-then-persist
//! sequence: `admin_command` runs the command and renders the new stored
//! form, but hands the still-open lock back as an [`AdminWriteSession`]; the
//! caller performs the disk write and only then closes the session, which
//! releases the lock. So no reader observes a registry mutated but not yet
//! durably saved, and no two writers — or their saves — interleave.

use vstd::prelude::*;
use vstd::rwlock::{RwLock, RwLockPredicate, WriteHandle};
use crate::auth::{begin_authorization, AuthStep, ChannelKind, Denial};
use crate::codec::{encode, spec_enc};
use crate::command::{handle_admin, spec_admin_verb, AdminCommandOutcome, AdminVerb};
use crate::registry::{add_effect, remove_effect, sorted_unique, AdminRoleRegistry};

verus! {

/// Evidence that `bytes` is the rendered form of a mutation: some
/// well-formed registry `post`, reached from a well-formed `pre` through
/// the verb's add or remove effect, encodes to exactly these bytes.
pub open spec fn mutation_evidence(
    bytes: Seq<u8>,
    verb: AdminVerb,
    server: u64,
    roles: Seq<u64>,
    pre: AdminRoleRegistry,
    post: AdminRoleRegistry,
) -> bool {
    &&& pre.wf()
    &&& post.wf()
    &&& bytes == spec_enc(post.entries@)
    &&& (verb is Add ==> add_effect(pre@, post@, server, roles))
    &&& (verb is Remove ==> remove_effect(pre@, post@, server, roles))
}

/// The lock's invariant: whatever registry is stored is well-formed.
pub struct WellFormed;

impl RwLockPredicate<AdminRoleRegistry> for WellFormed {
    open spec fn inv(self, v: AdminRoleRegistry) -> bool {
        v.wf()
    }
}

/// The permission store behind its reader/writer lock.
pub struct GuardedRegistry {
    lock: RwLock<AdminRoleRegistry, WellFormed>,
}

/// An exclusive lock still held after a mutation: the caller persists the
/// rendered bytes it was given, then closes the session. Every store access
/// blocks until then, so nothing can observe the mutated-but-unsaved state.
pub struct AdminWriteSession<'a> {
    registry: AdminRoleRegistry,
    handle: WriteHandle<'a, AdminRoleRegistry, WellFormed>,
}

impl<'a> AdminWriteSession<'a> {
    /// The session's invariant: the registry it will put back is well-formed.
    pub closed spec fn wf(&self) -> bool {
        self.registry.wf()
    }

    /// Close the session, releasing the exclusive lock.
    pub fn finish(self)
        requires
            self.wf(),
    {
        let AdminWriteSession { registry, handle } = self;
        handle.release_write(registry);
    }
}

impl GuardedRegistry {
    /// Wrap a loaded registry.
    pub fn new(reg: AdminRoleRegistry) -> Self
        requires
            reg.wf(),
    {
        GuardedRegistry { lock: RwLock::new(reg, Ghost(WellFormed)) }
    }

    /// Read-only lookup under a shared read lock. Whatever list comes back
    /// is strictly ascending and non-empty, as the guarded invariant holds
    /// of every state a reader can observe.
    pub fn get_admin_roles(&self, server: u64) -> (r: Option<Vec<u64>>)
        ensures
            r matches Some(v) ==> sorted_unique(v@) && v@.len() > 0,
    {
        let handle = self.lock.acquire_read();
        let r = match handle.borrow().get_admin_roles(server) {
            Some(v) => Some(v.clone()),
            None => None,
        };
        handle.release_read();
        r
    }

    /// The first authorization step, reading the store under a shared read
    /// lock. The channel-kind refusals and the owner bypass do not depend on
    /// the store at all; what does — whether admin roles are configured —
    /// is answered from the locked state, and any list handed out for the
    /// member check is strictly ascending and non-empty.
    pub fn begin_authorization(&self, kind: &ChannelKind, author: u64) -> (r: AuthStep)
        ensures
            match *kind {
                ChannelKind::Private => r == AuthStep::Refused(Denial::PrivateChannel),
                ChannelKind::Group => r == AuthStep::Refused(Denial::GroupChannel),
                ChannelKind::Unknown => r == AuthStep::Refused(Denial::UnknownChannel),
                ChannelKind::Public { server, owner } => {
                    &&& author == owner ==> r == AuthStep::Granted
                    &&& (r matches AuthStep::NeedMemberRoles { server: s, admin_roles } ==> s
                        == server && sorted_unique(admin_roles@) && admin_roles@.len() > 0)
                    &&& author != owner ==> (r == AuthStep::Refused(Denial::NotAuthorized)
                        || r is NeedMemberRoles)
                },
            },
    {
        let handle = self.lock.acquire_read();
        let r = begin_authorization(kind, author, handle.borrow());
        handle.release_read();
        r
    }

    /// Run an `admin` command under the exclusive write lock. The outcome
    /// follows the parsed verb; exactly a mutation hands back the rendered
    /// form to persist, which is the encoding of the mutated store — some
    /// well-formed registry that the store's prior state reaches through the
    /// verb's add or remove effect. The returned session keeps the lock held
    /// until the caller has written the bytes out and closes it.
    pub fn admin_command(
        &self,
        server: u64,
        text: &Vec<u8>,
        mention_roles: &Vec<u64>,
        server_roles: &Vec<(u64, String)>,
    ) -> (r: (AdminCommandOutcome, Option<Vec<u8>>, AdminWriteSession<'_>))
        ensures
            r.0 is Updated <==> r.1 is Some,
            match spec_admin_verb(text@) {
                AdminVerb::Help => r.0 is Help,
                AdminVerb::List => r.0 is Listing || r.0 is NoAdminRoles,
                AdminVerb::Add => if mention_roles@.len() == 0 {
                    r.0 is NoRolesMentioned
                } else {
                    r.0 is Updated
                },
                AdminVerb::Remove => if mention_roles@.len() == 0 {
                    r.0 is NoRolesMentioned
                } else {
                    r.0 is Updated
                },
            },
            r.1 is Some ==> exists|pre: AdminRoleRegistry, post: AdminRoleRegistry|
                mutation_evidence(
                    r.1->Some_0@,
                    spec_admin_verb(text@),
                    server,
                    mention_roles@,
                    pre,
                    post,
                ),
            r.2.wf(),
    {
        let (mut reg, handle) = self.lock.acquire_write();
        let ghost pre = reg;
        let out = handle_admin(&mut reg, server, text, mention_roles, server_roles);
        let bytes = if matches!(out, AdminCommandOutcome::Updated) {
            Some(encode(&reg))
        } else {
            None
        };
        proof {
            if bytes is Some {
                let b = bytes->Some_0;
                assert(mutation_evidence(
                    b@,
                    spec_admin_verb(text@),
                    server,
                    mention_roles@,
                    pre,
                    reg,
                ));
            }
        }
        (out, bytes, AdminWriteSession { registry: reg, handle })
    }
}

} // verus!
