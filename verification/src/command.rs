//! The two admin-gated commands, as pure logic on plain values.
//!
//! `admin list|add|remove` manages the per-server admin role list, and
//! `nuke <count> [user-mentions]` plans a bulk deletion. The platform layer
//! parses nothing itself: it hands the raw argument text (as bytes), the
//! mentioned ids and the fetched data in, and carries the returned outcome
//! out (replies, fetches, deletions).

use vstd::prelude::*;
use crate::numtext::{is_digit, all_digits, dec_val};
use crate::registry::{AdminRoleRegistry, add_effect, remove_effect, vec_contains};

verus! {

/// Whitespace, as the command tokenizer understands it.
pub open spec fn is_space(b: u8) -> bool {
    b == 32 || (9 <= b && b <= 13)
}

/// The first non-space position at or after `i`.
pub open spec fn space_end(s: Seq<u8>, i: int) -> int
    decreases s.len() - i,
    when 0 <= i <= s.len()
{
    if i < s.len() && is_space(s[i]) {
        space_end(s, i + 1)
    } else {
        i
    }
}

/// The first space position at or after `i`.
pub open spec fn token_end(s: Seq<u8>, i: int) -> int
    decreases s.len() - i,
    when 0 <= i <= s.len()
{
    if i < s.len() && !is_space(s[i]) {
        token_end(s, i + 1)
    } else {
        i
    }
}

/// The first whitespace-delimited token of `s` (empty when there is none).
pub open spec fn first_token(s: Seq<u8>) -> Seq<u8> {
    s.subrange(space_end(s, 0), token_end(s, space_end(s, 0)))
}

/// ASCII lower case.
pub open spec fn to_lower(b: u8) -> u8 {
    if 65 <= b && b <= 90 {
        (b + 32) as u8
    } else {
        b
    }
}

/// `s`, lower-cased byte for byte.
pub open spec fn lower_of(s: Seq<u8>) -> Seq<u8> {
    s.map_values(|b: u8| to_lower(b))
}

/// The three verbs of the `admin` command; anything else asks for help.
#[derive(Clone, Copy, Debug, PartialEq, Eq, Structural)]
pub enum AdminVerb {
    List,
    Add,
    Remove,
    Help,
}

/// The byte form of the verb literals.
pub open spec fn list_token() -> Seq<u8> {
    seq![108u8, 105u8, 115u8, 116u8]
}

pub open spec fn add_token() -> Seq<u8> {
    seq![97u8, 100u8, 100u8]
}

pub open spec fn remove_token() -> Seq<u8> {
    seq![114u8, 101u8, 109u8, 111u8, 118u8, 101u8]
}

/// The verb named by the first token of the argument text, matched
/// case-insensitively against exactly `list`, `add` and `remove`.
pub open spec fn spec_admin_verb(s: Seq<u8>) -> AdminVerb {
    let t = lower_of(first_token(s));
    if t == list_token() {
        AdminVerb::List
    } else if t == add_token() {
        AdminVerb::Add
    } else if t == remove_token() {
        AdminVerb::Remove
    } else {
        AdminVerb::Help
    }
}

fn is_space_byte(b: u8) -> (r: bool)
    ensures
        r == is_space(b),
{
    b == 32 || (b >= 9 && b <= 13)
}

fn lower_byte(b: u8) -> (r: u8)
    ensures
        r == to_lower(b),
{
    if b >= 65 && b <= 90 {
        b + 32
    } else {
        b
    }
}

/// The bounds of the first whitespace-delimited token of `text`.
fn token_bounds(text: &Vec<u8>) -> (r: (usize, usize))
    ensures
        r.0 as int == space_end(text@, 0),
        r.1 as int == token_end(text@, r.0 as int),
        r.0 <= r.1 <= text@.len(),
{
    let n = text.len();
    let mut a: usize = 0;
    while a < n && is_space_byte(text[a])
        invariant
            0 <= a <= n,
            n == text@.len(),
            space_end(text@, 0) == space_end(text@, a as int),
        decreases n - a,
    {
        a += 1;
    }
    let mut b: usize = a;
    while b < n && !is_space_byte(text[b])
        invariant
            a <= b <= n,
            n == text@.len(),
            token_end(text@, a as int) == token_end(text@, b as int),
        decreases n - b,
    {
        b += 1;
    }
    (a, b)
}

/// Read the command verb out of the argument text.
pub fn parse_admin_verb(text: &Vec<u8>) -> (v: AdminVerb)
    ensures
        v == spec_admin_verb(text@),
{
    let (a, b) = token_bounds(text);
    let ghost t = first_token(text@);
    let mut low: Vec<u8> = Vec::new();
    let mut k = a;
    while k < b
        invariant
            a <= k <= b <= text@.len(),
            low@ == lower_of(text@.subrange(a as int, k as int)),
        decreases b - k,
    {
        low.push(lower_byte(text[k]));
        proof {
            assert(low@ =~= lower_of(text@.subrange(a as int, k + 1 as int)));
        }
        k += 1;
    }
    proof {
        assert(low@ == lower_of(t));
    }
    let len = low.len();
    if len == 4 {
        if low[0] == 108 && low[1] == 105 && low[2] == 115 && low[3] == 116 {
            proof {
                assert(low@ =~= list_token());
            }
            return AdminVerb::List;
        }
        proof {
            assert(low@ != list_token());
        }
        return AdminVerb::Help;
    }
    if len == 3 {
        if low[0] == 97 && low[1] == 100 && low[2] == 100 {
            proof {
                assert(low@ =~= add_token());
            }
            return AdminVerb::Add;
        }
        proof {
            assert(low@ != add_token());
        }
        return AdminVerb::Help;
    }
    if len == 6 {
        if low[0] == 114 && low[1] == 101 && low[2] == 109 && low[3] == 111 && low[4] == 118
            && low[5] == 101 {
            proof {
                assert(low@ =~= remove_token());
            }
            return AdminVerb::Remove;
        }
        proof {
            assert(low@ != remove_token());
        }
        return AdminVerb::Help;
    }
    AdminVerb::Help
}

/// How many messages a `nuke` invocation asks to fetch: the count named by
/// the leading integer token, plus one for the invoking message itself.
/// Nothing when the leading token is missing or not a number, when the count
/// is zero, or when the fetch size would not fit in 64 bits.
pub open spec fn spec_nuke_fetch(s: Seq<u8>) -> Option<u64> {
    let t = first_token(s);
    if t.len() > 0 && all_digits(t) && 1 <= dec_val(t) && dec_val(t) + 1 <= u64::MAX {
        Some((dec_val(t) + 1) as u64)
    } else {
        None
    }
}

/// Parse the `nuke` argument text into the fetch size.
pub fn nuke_fetch_count(text: &Vec<u8>) -> (r: Option<u64>)
    ensures
        r == spec_nuke_fetch(text@),
{
    let (a, b) = token_bounds(text);
    let ghost t = first_token(text@);
    if a == b {
        return None;
    }
    let mut k = a;
    while k < b
        invariant
            a <= k <= b <= text@.len(),
            a as int == space_end(text@, 0),
            b as int == token_end(text@, a as int),
            t == first_token(text@),
            forall|j: int| a <= j < k ==> is_digit(text@[j]),
        decreases b - k,
    {
        if text[k] < 48 || text[k] > 57 {
            proof {
                assert(t =~= text@.subrange(a as int, b as int));
                assert(t[k - a] == text@[k as int]);
                assert(!all_digits(t));
            }
            return None;
        }
        k += 1;
    }
    proof {
        assert forall|j: int| 0 <= j < t.len() implies is_digit(t[j]) by {
            assert(t[j] == text@[a + j]);
        }
    }
    match crate::numtext::dec_value_of(text, a, b) {
        None => {
            proof {
                assert(dec_val(t) > u64::MAX);
            }
            None
        },
        Some(v) => {
            if v >= 1 && v <= u64::MAX - 1 {
                Some(v + 1)
            } else {
                None
            }
        },
    }
}

/// Which of the fetched messages a `nuke` invocation deletes: all of them
/// when no user was mentioned, otherwise exactly those whose author was
/// mentioned. A message is the pair (message id, author id).
pub open spec fn spec_nuke_targets(ms: Seq<(u64, u64)>, who: Seq<u64>) -> Seq<u64>
    decreases ms.len(),
{
    if ms.len() == 0 {
        Seq::empty()
    } else {
        let rest = spec_nuke_targets(ms.drop_last(), who);
        if who.len() == 0 || who.contains(ms.last().1) {
            rest.push(ms.last().0)
        } else {
            rest
        }
    }
}

/// Select the message ids to delete from the fetched messages.
pub fn nuke_targets(messages: &Vec<(u64, u64)>, mentioned: &Vec<u64>) -> (r: Vec<u64>)
    ensures
        r@ == spec_nuke_targets(messages@, mentioned@),
{
    let mut r: Vec<u64> = Vec::new();
    let n = messages.len();
    for i in 0..n
        invariant
            n == messages@.len(),
            r@ == spec_nuke_targets(messages@.subrange(0, i as int), mentioned@),
    {
        proof {
            assert(messages@.subrange(0, i + 1 as int).drop_last() =~= messages@.subrange(
                0,
                i as int,
            ));
            assert(messages@.subrange(0, i + 1 as int).last() == messages@[i as int]);
        }
        let keep = mentioned.len() == 0 || vec_contains(mentioned, messages[i].1);
        if keep {
            r.push(messages[i].0);
        }
    }
    proof {
        assert(messages@.subrange(0, n as int) == messages@);
    }
    r
}

/// What a `nuke` invocation does once the platform has answered the message
/// fetch: report the failure, or delete the selected message ids.
pub enum NukeAction {
    /// The fetch failed: reply with this text.
    Reply(&'static str),
    /// The fetch succeeded: delete exactly these message ids.
    Delete(Vec<u64>),
}

/// Decide the step after the message fetch. A failed fetch is reported with
/// its exact reply — never silently retried; a successful one narrows the
/// messages to the mentioned authors' (or keeps them all) and deletes them.
pub fn nuke_after_fetch(fetched: &Option<Vec<(u64, u64)>>, mentioned: &Vec<u64>) -> (r:
    NukeAction)
    ensures
        match *fetched {
            None => r matches NukeAction::Reply(s) && s@
                == "Error getting the recent messages."@,
            Some(ref messages) => r matches NukeAction::Delete(ids) && ids@ == spec_nuke_targets(
                messages@,
                mentioned@,
            ),
        },
{
    match fetched {
        None => NukeAction::Reply("Error getting the recent messages."),
        Some(messages) => NukeAction::Delete(nuke_targets(messages, mentioned)),
    }
}

/// The name the server's role table gives a role id, scanning from the
/// front; nothing when the role no longer exists.
pub open spec fn find_name(table: Seq<(u64, String)>, id: u64) -> Option<Seq<char>>
    decreases table.len(),
{
    if table.len() == 0 {
        None
    } else if table[0].0 == id {
        Some(table[0].1@)
    } else {
        find_name(table.drop_first(), id)
    }
}

/// Look a role id up in the server's role table.
pub fn lookup_role_name(table: &Vec<(u64, String)>, id: u64) -> (r: Option<String>)
    ensures
        match r {
            Some(name) => find_name(table@, id) == Some(name@),
            None => find_name(table@, id) is None,
        },
{
    let n = table.len();
    let mut i: usize = 0;
    proof {
        assert(table@.skip(0) =~= table@);
    }
    while i < n
        invariant
            0 <= i <= n,
            n == table@.len(),
            find_name(table@, id) == find_name(table@.skip(i as int), id),
        decreases n - i,
    {
        proof {
            assert(table@.skip(i as int)[0] == table@[i as int]);
            assert(table@.skip(i as int).drop_first() =~= table@.skip(i + 1 as int));
        }
        if table[i].0 == id {
            return Some(table[i].1.clone());
        }
        i += 1;
    }
    proof {
        assert(table@.skip(n as int).len() == 0);
    }
    None
}

/// One line of the `admin list` reply: a configured role id and its current
/// display name, or nothing when the role no longer exists on the server.
pub struct RoleLine {
    pub role: u64,
    pub name: Option<String>,
}

/// A listing line is faithful: it carries the given role id, and exactly the
/// name the server's role table gives that id.
pub open spec fn line_ok(line: RoleLine, role: u64, table: Seq<(u64, String)>) -> bool {
    &&& line.role == role
    &&& match line.name {
        Some(name) => find_name(table, role) == Some(name@),
        None => find_name(table, role) is None,
    }
}

/// What handling an `admin` command asks the platform layer to do next.
pub enum AdminCommandOutcome {
    /// The verb was not one of `list`, `add`, `remove`: reply with help text.
    Help,
    /// `add`/`remove` with no role mentioned: reply so.
    NoRolesMentioned,
    /// `list` with nothing configured: reply so.
    NoAdminRoles,
    /// `list`: render these lines, one role per line.
    Listing { lines: Vec<RoleLine> },
    /// `add`/`remove` applied: the store changed and must be persisted.
    Updated,
}

/// Handle an `admin` command: parse the verb out of the argument text and
/// apply it to the store. `list` reads and reports; `add` and `remove`
/// mutate (the caller persists the store when `Updated` comes back, before
/// releasing its write lock); anything else asks for help. The caller has
/// already authorized the author.
pub fn handle_admin(
    registry: &mut AdminRoleRegistry,
    server: u64,
    text: &Vec<u8>,
    mention_roles: &Vec<u64>,
    server_roles: &Vec<(u64, String)>,
) -> (r: AdminCommandOutcome)
    requires
        old(registry).wf(),
    ensures
        final(registry).wf(),
        match spec_admin_verb(text@) {
            AdminVerb::Help => *final(registry) == *old(registry) && r is Help,
            AdminVerb::List => *final(registry) == *old(registry) && (if old(
                registry,
            )@.contains_key(server) {
                r matches AdminCommandOutcome::Listing { lines } && lines@.len() == old(
                    registry,
                )@[server].len() && (forall|i: int|
                    0 <= i < lines@.len() ==> line_ok(
                        #[trigger] lines@[i],
                        old(registry)@[server][i],
                        server_roles@,
                    ))
            } else {
                r is NoAdminRoles
            }),
            AdminVerb::Add => if mention_roles@.len() == 0 {
                *final(registry) == *old(registry) && r is NoRolesMentioned
            } else {
                r is Updated && add_effect(old(registry)@, final(registry)@, server, mention_roles@)
            },
            AdminVerb::Remove => if mention_roles@.len() == 0 {
                *final(registry) == *old(registry) && r is NoRolesMentioned
            } else {
                r is Updated && remove_effect(
                    old(registry)@,
                    final(registry)@,
                    server,
                    mention_roles@,
                )
            },
        },
{
    match parse_admin_verb(text) {
        AdminVerb::List => {
            match registry.get_admin_roles(server) {
                Some(role_list) => {
                    let n = role_list.len();
                    let mut lines: Vec<RoleLine> = Vec::new();
                    for i in 0..n
                        invariant
                            n == role_list@.len(),
                            lines@.len() == i,
                            forall|j: int|
                                0 <= j < i ==> line_ok(
                                    #[trigger] lines@[j],
                                    role_list@[j],
                                    server_roles@,
                                ),
                    {
                        let role = role_list[i];
                        let name = lookup_role_name(server_roles, role);
                        lines.push(RoleLine { role, name });
                    }
                    AdminCommandOutcome::Listing { lines }
                },
                None => AdminCommandOutcome::NoAdminRoles,
            }
        },
        AdminVerb::Add => {
            if mention_roles.len() == 0 {
                AdminCommandOutcome::NoRolesMentioned
            } else {
                registry.add_admin_roles(server, mention_roles);
                AdminCommandOutcome::Updated
            }
        },
        AdminVerb::Remove => {
            if mention_roles.len() == 0 {
                AdminCommandOutcome::NoRolesMentioned
            } else {
                registry.remove_admin_roles(server, mention_roles);
                AdminCommandOutcome::Updated
            }
        },
        AdminVerb::Help => AdminCommandOutcome::Help,
    }
}

/// The two commands this subsystem registers with the dispatcher.
#[derive(Clone, Copy, Debug, PartialEq, Eq, Structural)]
pub enum CommandId {
    Admin,
    Nuke,
}

/// The module's display name.
pub fn module_name() -> (r: &'static str)
    ensures
        r@ == "Admin"@,
{
    "Admin"
}

/// The module's display description.
pub fn module_description() -> (r: &'static str)
    ensures
        r@ == "Various management commands."@,
{
    "Various management commands."
}

/// The alias a command is invoked under.
pub fn command_alias(id: CommandId) -> (r: &'static str)
    ensures
        match id {
            CommandId::Admin => r@ == "admin"@,
            CommandId::Nuke => r@ == "nuke"@,
        },
{
    match id {
        CommandId::Admin => "admin",
        CommandId::Nuke => "nuke",
    }
}

/// A command's one-line description.
pub fn command_description(id: CommandId) -> (r: &'static str)
    ensures
        match id {
            CommandId::Admin => r@ == "Manage the admin roles."@,
            CommandId::Nuke => r@ == "Deletes past messages."@,
        },
{
    match id {
        CommandId::Admin => "Manage the admin roles.",
        CommandId::Nuke => "Deletes past messages.",
    }
}

/// A command's help text, replied whenever its arguments make no sense.
pub fn command_help_message(id: CommandId) -> (r: &'static str)
    ensures
        match id {
            CommandId::Admin => r@
                == "`!admin list` - Lists the roles who have access to the admin commands.\n`!admin add <role mention(-s)>` - Add a role (roles) to the admin roles.\n`!admin remove <role mention(-s)>` - Remove a role (roles) from the admin roles."@,
            CommandId::Nuke => r@
                == "`!nuke <how many> [whose]` - Deletes the specified number of messages in the current channel. If any user mentions are present after the count, deletes the specified number of messages written by each of the people mentioned, and only theirs."@,
        },
{
    match id {
        CommandId::Admin => "`!admin list` - Lists the roles who have access to the admin commands.\n`!admin add <role mention(-s)>` - Add a role (roles) to the admin roles.\n`!admin remove <role mention(-s)>` - Remove a role (roles) from the admin roles.",
        CommandId::Nuke => "`!nuke <how many> [whose]` - Deletes the specified number of messages in the current channel. If any user mentions are present after the count, deletes the specified number of messages written by each of the people mentioned, and only theirs.",
    }
}

} // verus!
