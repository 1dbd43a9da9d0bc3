//! The persistence format: one plain-text, schema-tagged object holding the
//! whole server-to-role-list mapping.
//!
//! A registry is written as `{"admin_roles":{"<server>":[<role>,...],...}}`,
//! server ids as decimal strings, role ids as decimal numbers, no leading
//! zeros. `encode` renders the canonical form, without whitespace; `decode`
//! ignores whitespace bytes wherever they stand, re-sorts, deduplicates and
//! prunes whatever it reads, and calls anything else malformed. Reading a
//! file and writing one are the caller's business; this module only turns
//! bytes into a registry and back.

use vstd::prelude::*;
use crate::numtext::{is_digit, dec_val, spec_dec, push_dec_u64, lemma_spec_dec_digits,
    lemma_dec_val_spec_dec};
use crate::registry::{AdminRoleRegistry, ServerEntry, map_of, wf_entries, wf_map};

verus! {

/// Why a persisted registry could not be loaded.
#[derive(Clone, Copy, Debug, PartialEq, Eq, Structural)]
pub enum PersistenceError {
    /// The persistence file was missing or could not be read.
    Unreadable,
    /// The bytes read were not in the persistence format.
    Malformed,
}

impl PersistenceError {
    /// A short description for the critical log line.
    pub fn describe(&self) -> (r: &'static str)
        ensures
            match *self {
                PersistenceError::Unreadable => r@
                    == "the persistence file could not be read"@,
                PersistenceError::Malformed => r@
                    == "the persisted bytes were not in the persistence format"@,
            },
    {
        match self {
            PersistenceError::Unreadable => "the persistence file could not be read",
            PersistenceError::Malformed => "the persisted bytes were not in the persistence format",
        }
    }
}

/// A whitespace byte: space, tab, line feed or carriage return. The format
/// ignores these wherever they stand; no token of the format contains one.
pub open spec fn is_ws(b: u8) -> bool {
    b == 32 || b == 9 || b == 10 || b == 13
}

/// `s` with every whitespace byte removed.
pub open spec fn strip_ws(s: Seq<u8>) -> Seq<u8>
    decreases s.len(),
{
    if s.len() == 0 {
        s
    } else if is_ws(s.last()) {
        strip_ws(s.drop_last())
    } else {
        strip_ws(s.drop_last()).push(s.last())
    }
}

/// Stripping whitespace from a text that holds none changes nothing.
pub proof fn lemma_strip_ws_id(s: Seq<u8>)
    requires
        forall|i: int| 0 <= i < s.len() ==> !is_ws(s[i]),
    ensures
        strip_ws(s) == s,
    decreases s.len(),
{
    if s.len() > 0 {
        lemma_strip_ws_id(s.drop_last());
        assert(s.drop_last().push(s.last()) =~= s);
    }
}

/// Remove every whitespace byte.
fn strip_whitespace(bytes: &Vec<u8>) -> (r: Vec<u8>)
    ensures
        r@ == strip_ws(bytes@),
{
    let mut r: Vec<u8> = Vec::new();
    let n = bytes.len();
    for i in 0..n
        invariant
            n == bytes@.len(),
            r@ == strip_ws(bytes@.subrange(0, i as int)),
    {
        proof {
            assert(bytes@.subrange(0, i + 1 as int).drop_last() =~= bytes@.subrange(0, i as int));
            assert(bytes@.subrange(0, i + 1 as int).last() == bytes@[i as int]);
        }
        let b = bytes[i];
        if !(b == 32 || b == 9 || b == 10 || b == 13) {
            r.push(b);
        }
    }
    proof {
        assert(bytes@.subrange(0, n as int) == bytes@);
    }
    r
}

/// The schema tag that opens the file: `{"admin_roles":{`.
pub open spec fn header() -> Seq<u8> {
    seq![123u8, 34u8, 97u8, 100u8, 109u8, 105u8, 110u8, 95u8, 114u8, 111u8, 108u8, 101u8, 115u8,
        34u8, 58u8, 123u8]
}

/// A role list, rendered as decimal numbers joined by commas.
pub open spec fn spec_enc_roles(roles: Seq<u64>) -> Seq<u8>
    decreases roles.len(),
{
    if roles.len() == 0 {
        Seq::empty()
    } else if roles.len() == 1 {
        spec_dec(roles[0] as nat)
    } else {
        spec_enc_roles(roles.drop_last()) + seq![44u8] + spec_dec(roles.last() as nat)
    }
}

/// One server's entry: `"<server>":[<roles>]`.
pub open spec fn spec_enc_entry(e: ServerEntry) -> Seq<u8> {
    seq![34u8] + spec_dec(e.server as nat) + seq![34u8, 58u8, 91u8] + spec_enc_roles(e.roles@)
        + seq![93u8]
}

/// All entries, joined by commas.
pub open spec fn spec_enc_entries(s: Seq<ServerEntry>) -> Seq<u8>
    decreases s.len(),
{
    if s.len() == 0 {
        Seq::empty()
    } else if s.len() == 1 {
        spec_enc_entry(s[0])
    } else {
        spec_enc_entries(s.drop_last()) + seq![44u8] + spec_enc_entry(s.last())
    }
}

/// The whole file.
pub open spec fn spec_enc(s: Seq<ServerEntry>) -> Seq<u8> {
    header() + spec_enc_entries(s) + seq![125u8, 125u8]
}

/// Render the registry in the persistence format.
#[verifier::rlimit(50)]
pub fn encode(registry: &AdminRoleRegistry) -> (r: Vec<u8>)
    ensures
        r@ == spec_enc(registry.entries@),
{
    let mut out: Vec<u8> = Vec::new();
    out.push(123);
    out.push(34);
    out.push(97);
    out.push(100);
    out.push(109);
    out.push(105);
    out.push(110);
    out.push(95);
    out.push(114);
    out.push(111);
    out.push(108);
    out.push(101);
    out.push(115);
    out.push(34);
    out.push(58);
    out.push(123);
    proof {
        assert(out@ =~= header());
    }
    let n = registry.entries.len();
    for i in 0..n
        invariant
            n == registry.entries@.len(),
            out@ == header() + spec_enc_entries(registry.entries@.subrange(0, i as int)),
    {
        let ghost seen = registry.entries@.subrange(0, i as int);
        if i > 0 {
            out.push(44);
        }
        let ghost lead = out@;
        out.push(34);
        push_dec_u64(&mut out, registry.entries[i].server);
        out.push(34);
        out.push(58);
        out.push(91);
        let ghost open_roles = out@;
        proof {
            assert(open_roles =~= lead + seq![34u8] + spec_dec(
                registry.entries@[i as int].server as nat,
            ) + seq![34u8, 58u8, 91u8]);
        }
        let roles = &registry.entries[i].roles;
        let m = roles.len();
        for k in 0..m
            invariant
                m == roles@.len(),
                out@ == open_roles + spec_enc_roles(roles@.subrange(0, k as int)),
        {
            if k > 0 {
                out.push(44);
            }
            let ghost mid = out@;
            push_dec_u64(&mut out, roles[k]);
            proof {
                let sub1 = roles@.subrange(0, k + 1 as int);
                assert(sub1.drop_last() =~= roles@.subrange(0, k as int));
                assert(sub1.last() == roles@[k as int]);
                assert(out@ =~= open_roles + spec_enc_roles(sub1));
            }
        }
        proof {
            assert(roles@.subrange(0, m as int) == roles@);
        }
        out.push(93);
        proof {
            let sub1 = registry.entries@.subrange(0, i + 1 as int);
            assert(sub1.drop_last() =~= seen);
            assert(sub1.last() == registry.entries@[i as int]);
            assert(out@ =~= open_roles + spec_enc_roles(registry.entries@[i as int].roles@)
                + seq![93u8]);
            assert(out@ =~= header() + spec_enc_entries(sub1));
        }
    }
    proof {
        assert(registry.entries@.subrange(0, n as int) == registry.entries@);
    }
    out.push(125);
    out.push(125);
    proof {
        assert(out@ =~= spec_enc(registry.entries@));
    }
    out
}

/// The end of the digit run starting at `i`.
pub open spec fn digits_end(s: Seq<u8>, i: int) -> int
    decreases s.len() - i,
    when 0 <= i <= s.len()
{
    if i < s.len() && is_digit(s[i]) {
        digits_end(s, i + 1)
    } else {
        i
    }
}

pub proof fn lemma_digits_end(s: Seq<u8>, i: int)
    requires
        0 <= i <= s.len(),
    ensures
        i <= digits_end(s, i) <= s.len(),
        forall|j: int| i <= j < digits_end(s, i) ==> is_digit(s[j]),
        digits_end(s, i) == s.len() || !is_digit(s[digits_end(s, i)]),
    decreases s.len() - i,
{
    if i < s.len() && is_digit(s[i]) {
        lemma_digits_end(s, i + 1);
    }
}

/// A digit run at `i` ends exactly where the digits stop.
pub proof fn lemma_digits_end_exact(s: Seq<u8>, i: int, e: int)
    requires
        0 <= i <= e <= s.len(),
        forall|j: int| i <= j < e ==> is_digit(s[j]),
        e == s.len() || !is_digit(s[e]),
    ensures
        digits_end(s, i) == e,
    decreases e - i,
{
    if i < e {
        lemma_digits_end_exact(s, i + 1, e);
    }
}

/// The canonical number starting at `i`: a non-empty digit run without a
/// useless leading zero, with its value and the position after it.
pub open spec fn num_at(s: Seq<u8>, i: int) -> Option<(nat, int)> {
    let e = digits_end(s, i);
    if e == i {
        None
    } else if s[i] == 48 && e > i + 1 {
        None
    } else {
        Some((dec_val(s.subrange(i, e)), e))
    }
}

pub proof fn lemma_num_at_pos(s: Seq<u8>, i: int)
    requires
        0 <= i <= s.len(),
        num_at(s, i) is Some,
    ensures
        i < num_at(s, i)->Some_0.1 <= s.len(),
{
    lemma_digits_end(s, i);
}

/// The role list and closing bracket starting at `i`: numbers joined by
/// commas, ended by `]`, with the position after the bracket.
pub open spec fn roles_at(s: Seq<u8>, i: int) -> Option<(Seq<nat>, int)>
    decreases s.len() - i,
    when 0 <= i <= s.len()
    via roles_at_decreases
{
    match num_at(s, i) {
        None => None,
        Some((n, j)) => {
            if j < s.len() && s[j] == 44 {
                match roles_at(s, j + 1) {
                    None => None,
                    Some((rest, k)) => Some((seq![n] + rest, k)),
                }
            } else if j < s.len() && s[j] == 93 {
                Some((seq![n], j + 1))
            } else {
                None
            }
        },
    }
}

#[via_fn]
proof fn roles_at_decreases(s: Seq<u8>, i: int) {
    lemma_digits_end(s, i);
}

pub proof fn lemma_roles_at_pos(s: Seq<u8>, i: int)
    requires
        0 <= i <= s.len(),
        roles_at(s, i) is Some,
    ensures
        i < roles_at(s, i)->Some_0.1 <= s.len(),
    decreases s.len() - i,
{
    lemma_digits_end(s, i);
    let (n, j) = num_at(s, i)->Some_0;
    if j < s.len() && s[j] == 44 {
        lemma_roles_at_pos(s, j + 1);
    }
}

/// One `"<server>":[<roles>]` entry starting at `i`, with the position
/// after it. An empty `[]` list is accepted (and pruned on load).
pub open spec fn entry_at(s: Seq<u8>, i: int) -> Option<((nat, Seq<nat>), int)> {
    if i < s.len() && s[i] == 34 {
        match num_at(s, i + 1) {
            None => None,
            Some((server, j)) => {
                if j + 3 <= s.len() && s[j] == 34 && s[j + 1] == 58 && s[j + 2] == 91 {
                    if j + 3 < s.len() && s[j + 3] == 93 {
                        Some(((server, Seq::empty()), j + 4))
                    } else {
                        match roles_at(s, j + 3) {
                            None => None,
                            Some((roles, k)) => Some(((server, roles), k)),
                        }
                    }
                } else {
                    None
                }
            },
        }
    } else {
        None
    }
}

pub proof fn lemma_entry_at_pos(s: Seq<u8>, i: int)
    requires
        0 <= i <= s.len(),
        entry_at(s, i) is Some,
    ensures
        i < entry_at(s, i)->Some_0.1 <= s.len(),
{
    lemma_num_at_pos(s, i + 1);
    let (server, j) = num_at(s, i + 1)->Some_0;
    if !(j + 3 < s.len() && s[j + 3] == 93) {
        lemma_roles_at_pos(s, j + 3);
    }
}

/// The entry list and the inner closing brace starting at `i`: entries
/// joined by commas, ended by `}`, with the position after the brace.
pub open spec fn entries_at(s: Seq<u8>, i: int) -> Option<(Seq<(nat, Seq<nat>)>, int)>
    decreases s.len() - i,
    when 0 <= i <= s.len()
    via entries_at_decreases
{
    match entry_at(s, i) {
        None => None,
        Some((e, j)) => {
            if j < s.len() && s[j] == 44 {
                match entries_at(s, j + 1) {
                    None => None,
                    Some((rest, k)) => Some((seq![e] + rest, k)),
                }
            } else if j < s.len() && s[j] == 125 {
                Some((seq![e], j + 1))
            } else {
                None
            }
        },
    }
}

#[via_fn]
proof fn entries_at_decreases(s: Seq<u8>, i: int) {
    if entry_at(s, i) is Some {
        lemma_entry_at_pos(s, i);
    }
}

/// The raw content of a persisted registry: the server-to-role-list pairs
/// exactly as the bytes spell them, or nothing when the bytes are not in
/// the format.
pub open spec fn spec_decode(s: Seq<u8>) -> Option<Seq<(nat, Seq<nat>)>> {
    if s.len() >= 16 && s.subrange(0, 16) == header() {
        if s.len() == 18 && s[16] == 125 && s[17] == 125 {
            Some(Seq::empty())
        } else {
            match entries_at(s, 16) {
                None => None,
                Some((entries, j)) => {
                    if j < s.len() && s[j] == 125 && j + 1 == s.len() {
                        Some(entries)
                    } else {
                        None
                    }
                },
            }
        }
    } else {
        None
    }
}

/// A prefix equality against a concatenation splits into its two parts.
proof fn lemma_subrange_split(s: Seq<u8>, i: int, a: Seq<u8>, b: Seq<u8>)
    requires
        0 <= i,
        i + a.len() + b.len() <= s.len(),
        s.subrange(i, i + a.len() + b.len()) == a + b,
    ensures
        s.subrange(i, i + a.len()) == a,
        s.subrange(i + a.len(), i + a.len() + b.len()) == b,
{
    let whole = s.subrange(i, i + a.len() + b.len());
    assert(s.subrange(i, i + a.len()) =~= a) by {
        assert forall|k: int| 0 <= k < a.len() implies s.subrange(i, i + a.len())[k] == a[k] by {
            assert(whole[k] == s[i + k]);
            assert((a + b)[k] == a[k]);
        }
    }
    assert(s.subrange(i + a.len(), i + a.len() + b.len()) =~= b) by {
        assert forall|k: int| 0 <= k < b.len() implies s.subrange(
            i + a.len(),
            i + a.len() + b.len(),
        )[k] == b[k] by {
            assert(whole[a.len() + k] == s[i + a.len() + k]);
            assert((a + b)[a.len() + k] == b[k]);
        }
    }
}

/// A canonically rendered number, followed by a non-digit, parses back to
/// itself.
proof fn lemma_num_at_exact(s: Seq<u8>, i: int, n: nat)
    requires
        0 <= i,
        i + spec_dec(n).len() <= s.len(),
        s.subrange(i, i + spec_dec(n).len()) == spec_dec(n),
        i + spec_dec(n).len() == s.len() || !is_digit(s[i + spec_dec(n).len()]),
    ensures
        num_at(s, i) == Some((n, i + spec_dec(n).len())),
{
    lemma_spec_dec_digits(n);
    let e = i + spec_dec(n).len();
    assert forall|j: int| i <= j < e implies is_digit(s[j]) by {
        assert(s.subrange(i, e)[j - i] == s[j]);
        assert(spec_dec(n)[j - i] == s[j]);
    }
    lemma_digits_end_exact(s, i, e);
    lemma_dec_val_spec_dec(n);
    assert(s.subrange(i, e)[0] == s[i]);
    assert(s[i] == spec_dec(n)[0]);
    if n == 0 {
        assert(e == i + 1);
    } else {
        assert(s[i] != 48);
    }
}

/// The role list rendering, decomposed at its first number instead of its
/// last.
proof fn lemma_enc_roles_front(roles: Seq<u64>)
    requires
        roles.len() >= 1,
    ensures
        spec_enc_roles(roles) == if roles.len() == 1 {
            spec_dec(roles[0] as nat)
        } else {
            spec_dec(roles[0] as nat) + seq![44u8] + spec_enc_roles(roles.drop_first())
        },
    decreases roles.len(),
{
    if roles.len() == 1 {
    } else if roles.len() == 2 {
        assert(roles.drop_last().len() == 1 && roles.drop_last()[0] == roles[0]);
        assert(roles.drop_first().len() == 1 && roles.drop_first()[0] == roles[1]);
        assert(roles.last() == roles[1]);
        assert(spec_enc_roles(roles) == spec_enc_roles(roles.drop_last()) + seq![44u8] + spec_dec(
            roles.last() as nat,
        ));
        assert(spec_enc_roles(roles.drop_last()) == spec_dec(roles[0] as nat));
        assert(spec_enc_roles(roles.drop_first()) == spec_dec(roles[1] as nat));
        assert(spec_enc_roles(roles) =~= spec_dec(roles[0] as nat) + seq![44u8] + spec_enc_roles(
            roles.drop_first(),
        ));
    } else {
        lemma_enc_roles_front(roles.drop_last());
        assert(roles.drop_last().drop_first() =~= roles.drop_first().drop_last());
        assert(roles.drop_last()[0] == roles[0]);
        assert(roles.drop_first().last() == roles.last());
        assert(roles.drop_first().len() >= 2);
        assert(spec_enc_roles(roles) == spec_enc_roles(roles.drop_last()) + seq![44u8] + spec_dec(
            roles.last() as nat,
        ));
        assert(spec_enc_roles(roles.drop_last()) == spec_dec(roles[0] as nat) + seq![44u8]
            + spec_enc_roles(roles.drop_last().drop_first()));
        assert(spec_enc_roles(roles.drop_last().drop_first()) == spec_enc_roles(
            roles.drop_first().drop_last(),
        ));
        assert(spec_enc_roles(roles.drop_first()) == spec_enc_roles(roles.drop_first().drop_last())
            + seq![44u8] + spec_dec(roles.drop_first().last() as nat));
        assert(spec_enc_roles(roles) =~= spec_dec(roles[0] as nat) + seq![44u8] + spec_enc_roles(
            roles.drop_first(),
        ));
    }
}

/// The entry list rendering, decomposed at its first entry.
proof fn lemma_enc_entries_front(entries: Seq<ServerEntry>)
    requires
        entries.len() >= 1,
    ensures
        spec_enc_entries(entries) == if entries.len() == 1 {
            spec_enc_entry(entries[0])
        } else {
            spec_enc_entry(entries[0]) + seq![44u8] + spec_enc_entries(entries.drop_first())
        },
    decreases entries.len(),
{
    if entries.len() == 1 {
    } else if entries.len() == 2 {
        assert(entries.drop_last().len() == 1 && entries.drop_last()[0] == entries[0]);
        assert(entries.drop_first().len() == 1 && entries.drop_first()[0] == entries[1]);
        assert(entries.last() == entries[1]);
        assert(spec_enc_entries(entries) == spec_enc_entries(entries.drop_last()) + seq![44u8]
            + spec_enc_entry(entries.last()));
        assert(spec_enc_entries(entries.drop_last()) == spec_enc_entry(entries[0]));
        assert(spec_enc_entries(entries.drop_first()) == spec_enc_entry(entries[1]));
        assert(spec_enc_entries(entries) =~= spec_enc_entry(entries[0]) + seq![44u8]
            + spec_enc_entries(entries.drop_first()));
    } else {
        lemma_enc_entries_front(entries.drop_last());
        assert(entries.drop_last().drop_first() =~= entries.drop_first().drop_last());
        assert(entries.drop_last()[0] == entries[0]);
        assert(entries.drop_first().last() == entries.last());
        assert(entries.drop_first().len() >= 2);
        assert(spec_enc_entries(entries) == spec_enc_entries(entries.drop_last()) + seq![44u8]
            + spec_enc_entry(entries.last()));
        assert(spec_enc_entries(entries.drop_last()) == spec_enc_entry(entries[0]) + seq![44u8]
            + spec_enc_entries(entries.drop_last().drop_first()));
        assert(spec_enc_entries(entries.drop_last().drop_first()) == spec_enc_entries(
            entries.drop_first().drop_last(),
        ));
        assert(spec_enc_entries(entries.drop_first()) == spec_enc_entries(
            entries.drop_first().drop_last(),
        ) + seq![44u8] + spec_enc_entry(entries.drop_first().last()));
        assert(spec_enc_entries(entries) =~= spec_enc_entry(entries[0]) + seq![44u8]
            + spec_enc_entries(entries.drop_first()));
    }
}

/// A rendered role list, followed by its closing bracket, parses back to
/// itself.
proof fn lemma_roles_at_exact(s: Seq<u8>, i: int, roles: Seq<u64>)
    requires
        roles.len() >= 1,
        0 <= i,
        i + spec_enc_roles(roles).len() + 1 <= s.len(),
        s.subrange(i, i + spec_enc_roles(roles).len()) == spec_enc_roles(roles),
        s[i + spec_enc_roles(roles).len()] == 93,
    ensures
        roles_at(s, i) == Some(
            (roles.map_values(|r: u64| r as nat), i + spec_enc_roles(roles).len() + 1),
        ),
    decreases roles.len(),
{
    lemma_enc_roles_front(roles);
    let d0 = spec_dec(roles[0] as nat);
    lemma_spec_dec_digits(roles[0] as nat);
    let ll = spec_enc_roles(roles).len();
    if roles.len() == 1 {
        lemma_num_at_exact(s, i, roles[0] as nat);
        assert(roles.map_values(|r: u64| r as nat) =~= seq![roles[0] as nat]);
    } else {
        let rest = roles.drop_first();
        let tail = seq![44u8] + spec_enc_roles(rest);
        assert(s.subrange(i, i + d0.len() + tail.len()) == d0 + tail);
        lemma_subrange_split(s, i, d0, tail);
        let j = i + d0.len();
        lemma_subrange_split(s, j, seq![44u8], spec_enc_roles(rest));
        assert(s[j] == 44) by {
            assert(s.subrange(j, j + 1)[0] == s[j]);
        }
        lemma_num_at_exact(s, i, roles[0] as nat);
        lemma_roles_at_exact(s, j + 1, rest);
        assert(seq![roles[0] as nat] + rest.map_values(|r: u64| r as nat) =~= roles.map_values(
            |r: u64| r as nat,
        ));
    }
}

/// A rendered entry parses back to itself.
proof fn lemma_entry_at_exact(s: Seq<u8>, i: int, e: ServerEntry)
    requires
        0 <= i,
        i + spec_enc_entry(e).len() <= s.len(),
        s.subrange(i, i + spec_enc_entry(e).len()) == spec_enc_entry(e),
    ensures
        entry_at(s, i) == Some(
            (
                (e.server as nat, e.roles@.map_values(|r: u64| r as nat)),
                i + spec_enc_entry(e).len(),
            ),
        ),
{
    let dsrv = spec_dec(e.server as nat);
    lemma_spec_dec_digits(e.server as nat);
    let er = spec_enc_roles(e.roles@);
    let el = spec_enc_entry(e).len();
    assert(spec_enc_entry(e) =~= seq![34u8] + (dsrv + (seq![34u8, 58u8, 91u8] + (er
        + seq![93u8]))));
    lemma_subrange_split(s, i, seq![34u8], dsrv + (seq![34u8, 58u8, 91u8] + (er + seq![93u8])));
    assert(s[i] == 34) by {
        assert(s.subrange(i, i + 1)[0] == s[i]);
    }
    lemma_subrange_split(s, i + 1, dsrv, seq![34u8, 58u8, 91u8] + (er + seq![93u8]));
    let j = i + 1 + dsrv.len();
    lemma_subrange_split(s, j, seq![34u8, 58u8, 91u8], er + seq![93u8]);
    assert(s[j] == 34 && s[j + 1] == 58 && s[j + 2] == 91) by {
        assert(s.subrange(j, j + 3)[0] == s[j]);
        assert(s.subrange(j, j + 3)[1] == s[j + 1]);
        assert(s.subrange(j, j + 3)[2] == s[j + 2]);
    }
    assert(!is_digit(s[j])) by {
        assert(s[j] == 34);
    }
    lemma_num_at_exact(s, i + 1, e.server as nat);
    lemma_subrange_split(s, j + 3, er, seq![93u8]);
    assert(s[j + 3 + er.len()] == 93) by {
        assert(s.subrange(j + 3 + er.len(), j + 3 + er.len() + 1)[0] == s[j + 3 + er.len()]);
    }
    if e.roles@.len() == 0 {
        assert(er.len() == 0);
        assert(s[j + 3] == 93);
        assert(e.roles@.map_values(|r: u64| r as nat) =~= Seq::<nat>::empty());
        assert(el == j + 4 - i);
    } else {
        lemma_enc_roles_front(e.roles@);
        lemma_spec_dec_digits(e.roles@[0] as nat);
        assert(s[j + 3] == er[0]) by {
            assert(s.subrange(j + 3, j + 3 + er.len())[0] == s[j + 3]);
        }
        assert(is_digit(er[0])) by {
            assert(er[0] == spec_dec(e.roles@[0] as nat)[0]);
        }
        assert(s[j + 3] != 93);
        lemma_roles_at_exact(s, j + 3, e.roles@);
        assert(el == j + 3 + er.len() + 1 - i);
    }
}

/// No byte of a rendered number is whitespace.
proof fn lemma_spec_dec_no_ws(n: nat)
    ensures
        forall|i: int| 0 <= i < spec_dec(n).len() ==> !is_ws(#[trigger] spec_dec(n)[i]),
{
    lemma_spec_dec_digits(n);
    assert forall|i: int| 0 <= i < spec_dec(n).len() implies !is_ws(
        #[trigger] spec_dec(n)[i],
    ) by {
        assert(is_digit(spec_dec(n)[i]));
    }
}

/// No byte of a rendered role list is whitespace.
proof fn lemma_enc_roles_no_ws(roles: Seq<u64>)
    ensures
        forall|i: int|
            0 <= i < spec_enc_roles(roles).len() ==> !is_ws(#[trigger] spec_enc_roles(roles)[i]),
    decreases roles.len(),
{
    if roles.len() == 0 {
    } else if roles.len() == 1 {
        lemma_spec_dec_no_ws(roles[0] as nat);
    } else {
        lemma_enc_roles_no_ws(roles.drop_last());
        lemma_spec_dec_no_ws(roles.last() as nat);
        let a = spec_enc_roles(roles.drop_last());
        let c = spec_dec(roles.last() as nat);
        assert forall|i: int| 0 <= i < spec_enc_roles(roles).len() implies !is_ws(
            #[trigger] spec_enc_roles(roles)[i],
        ) by {
            if i < a.len() {
                assert(spec_enc_roles(roles)[i] == a[i]);
            } else if i == a.len() {
                assert(spec_enc_roles(roles)[i] == 44);
            } else {
                assert(spec_enc_roles(roles)[i] == c[i - a.len() - 1]);
            }
        }
    }
}

/// No byte of a rendered entry is whitespace.
proof fn lemma_enc_entry_no_ws(e: ServerEntry)
    ensures
        forall|i: int|
            0 <= i < spec_enc_entry(e).len() ==> !is_ws(#[trigger] spec_enc_entry(e)[i]),
{
    lemma_spec_dec_no_ws(e.server as nat);
    lemma_enc_roles_no_ws(e.roles@);
    let dsrv = spec_dec(e.server as nat);
    let er = spec_enc_roles(e.roles@);
    assert forall|i: int| 0 <= i < spec_enc_entry(e).len() implies !is_ws(
        #[trigger] spec_enc_entry(e)[i],
    ) by {
        if i == 0 {
            assert(spec_enc_entry(e)[i] == 34);
        } else if i < 1 + dsrv.len() {
            assert(spec_enc_entry(e)[i] == dsrv[i - 1]);
        } else if i < 4 + dsrv.len() {
            assert(spec_enc_entry(e)[i] == seq![34u8, 58u8, 91u8][i - 1 - dsrv.len()]);
        } else if i < 4 + dsrv.len() + er.len() {
            assert(spec_enc_entry(e)[i] == er[i - 4 - dsrv.len()]);
        } else {
            assert(spec_enc_entry(e)[i] == 93);
        }
    }
}

/// No byte of a rendered entry list is whitespace.
proof fn lemma_enc_entries_no_ws(entries: Seq<ServerEntry>)
    ensures
        forall|i: int|
            0 <= i < spec_enc_entries(entries).len() ==> !is_ws(
                #[trigger] spec_enc_entries(entries)[i],
            ),
    decreases entries.len(),
{
    if entries.len() == 0 {
    } else if entries.len() == 1 {
        lemma_enc_entry_no_ws(entries[0]);
    } else {
        lemma_enc_entries_no_ws(entries.drop_last());
        lemma_enc_entry_no_ws(entries.last());
        let a = spec_enc_entries(entries.drop_last());
        let c = spec_enc_entry(entries.last());
        assert forall|i: int| 0 <= i < spec_enc_entries(entries).len() implies !is_ws(
            #[trigger] spec_enc_entries(entries)[i],
        ) by {
            if i < a.len() {
                assert(spec_enc_entries(entries)[i] == a[i]);
            } else if i == a.len() {
                assert(spec_enc_entries(entries)[i] == 44);
            } else {
                assert(spec_enc_entries(entries)[i] == c[i - a.len() - 1]);
            }
        }
    }
}

/// No byte of a rendered registry is whitespace: what `encode` writes is
/// untouched by whitespace stripping.
proof fn lemma_spec_enc_no_ws(entries: Seq<ServerEntry>)
    ensures
        forall|i: int|
            0 <= i < spec_enc(entries).len() ==> !is_ws(#[trigger] spec_enc(entries)[i]),
{
    lemma_enc_entries_no_ws(entries);
    let ee = spec_enc_entries(entries);
    assert forall|i: int| 0 <= i < spec_enc(entries).len() implies !is_ws(
        #[trigger] spec_enc(entries)[i],
    ) by {
        if i < 16 {
            assert(spec_enc(entries)[i] == header()[i]);
            assert(!is_ws(header()[i]));
        } else if i < 16 + ee.len() {
            assert(spec_enc(entries)[i] == ee[i - 16]);
        } else {
            assert(spec_enc(entries)[i] == seq![125u8, 125u8][i - 16 - ee.len()]);
        }
    }
}

/// The raw pairs a sequence of entries stands for.
pub open spec fn raw_of(s: Seq<ServerEntry>) -> Seq<(nat, Seq<nat>)> {
    s.map_values(|e: ServerEntry| (e.server as nat, e.roles@.map_values(|r: u64| r as nat)))
}

/// A rendered entry list, followed by its closing brace, parses back to
/// itself.
proof fn lemma_entries_at_exact(s: Seq<u8>, i: int, entries: Seq<ServerEntry>)
    requires
        entries.len() >= 1,
        0 <= i,
        i + spec_enc_entries(entries).len() + 1 <= s.len(),
        s.subrange(i, i + spec_enc_entries(entries).len()) == spec_enc_entries(entries),
        s[i + spec_enc_entries(entries).len()] == 125,
    ensures
        entries_at(s, i) == Some((raw_of(entries), i + spec_enc_entries(entries).len() + 1)),
    decreases entries.len(),
{
    lemma_enc_entries_front(entries);
    let d0 = spec_enc_entry(entries[0]);
    if entries.len() == 1 {
        lemma_entry_at_exact(s, i, entries[0]);
        assert(raw_of(entries) =~= seq![
            (entries[0].server as nat, entries[0].roles@.map_values(|r: u64| r as nat)),
        ]);
    } else {
        let rest = entries.drop_first();
        let tail = seq![44u8] + spec_enc_entries(rest);
        assert(s.subrange(i, i + d0.len() + tail.len()) == d0 + tail);
        lemma_subrange_split(s, i, d0, tail);
        let j = i + d0.len();
        lemma_subrange_split(s, j, seq![44u8], spec_enc_entries(rest));
        assert(s[j] == 44) by {
            assert(s.subrange(j, j + 1)[0] == s[j]);
        }
        lemma_entry_at_exact(s, i, entries[0]);
        lemma_entries_at_exact(s, j + 1, rest);
        assert(seq![
            (entries[0].server as nat, entries[0].roles@.map_values(|r: u64| r as nat)),
        ] + raw_of(rest) =~= raw_of(entries));
    }
}

/// Reading back a rendered registry gives exactly its raw pairs, and every
/// rendered value fits in 64 bits: the format round-trips.
pub proof fn lemma_decode_encode(entries: Seq<ServerEntry>)
    ensures
        spec_decode(spec_enc(entries)) == Some(raw_of(entries)),
        raw_fits(raw_of(entries)),
        strip_ws(spec_enc(entries)) == spec_enc(entries),
{
    lemma_spec_enc_no_ws(entries);
    lemma_strip_ws_id(spec_enc(entries));
    assert forall|k: int| 0 <= k < raw_of(entries).len() implies (#[trigger] raw_of(
        entries,
    )[k]).0 <= u64::MAX && roles_fit(raw_of(entries)[k].1) by {
        assert(raw_of(entries)[k].0 == entries[k].server as nat);
        assert forall|j: int| 0 <= j < raw_of(entries)[k].1.len() implies #[trigger] raw_of(
            entries,
        )[k].1[j] <= u64::MAX by {
            assert(raw_of(entries)[k].1[j] == entries[k].roles@[j] as nat);
        }
    }
    let s = spec_enc(entries);
    let ee = spec_enc_entries(entries);
    let el = ee.len() as int;
    assert(s =~= header() + (ee + seq![125u8, 125u8]));
    assert(s.len() == 16 + el + 2);
    assert(s.subrange(0, s.len() as int) =~= s);
    lemma_subrange_split(s, 0, header(), ee + seq![125u8, 125u8]);
    lemma_subrange_split(s, 16, ee, seq![125u8, 125u8]);
    assert(s[16 + el] == 125 && s[16 + el + 1] == 125) by {
        assert(s.subrange(16 + el, 16 + el + 2)[0] == s[16 + el]);
        assert(s.subrange(16 + el, 16 + el + 2)[1] == s[16 + el + 1]);
    }
    if entries.len() == 0 {
        assert(el == 0);
        assert(s.len() == 18);
        assert(raw_of(entries) =~= Seq::<(nat, Seq<nat>)>::empty());
    } else {
        lemma_enc_entries_front(entries);
        assert(s[16] == ee[0]) by {
            assert(s.subrange(16, 16 + el)[0] == s[16]);
        }
        assert(ee[0] == 34) by {
            assert(spec_enc_entry(entries[0])[0] == 34);
        }
        assert(!(s.len() == 18 && s[16] == 125 && s[17] == 125));
        lemma_entries_at_exact(s, 16, entries);
    }
}

/// Every parsed role value fits in 64 bits.
pub open spec fn roles_fit(roles: Seq<nat>) -> bool {
    forall|k: int| 0 <= k < roles.len() ==> roles[k] <= u64::MAX
}

/// Every parsed server id and role value fits in 64 bits.
pub open spec fn raw_fits(raw: Seq<(nat, Seq<nat>)>) -> bool {
    forall|k: int|
        0 <= k < raw.len() ==> (#[trigger] raw[k]).0 <= u64::MAX && roles_fit(raw[k].1)
}

/// The raw pairs a sequence of parsed (server, roles) values stands for.
pub open spec fn raw_of_pairs(p: Seq<(u64, Vec<u64>)>) -> Seq<(nat, Seq<nat>)> {
    p.map_values(|e: (u64, Vec<u64>)| (e.0 as nat, e.1@.map_values(|x: u64| x as nat)))
}

/// Parse the number at `i`, when its value fits in 64 bits.
fn exec_num(s: &Vec<u8>, i: usize) -> (r: Option<(u64, usize)>)
    requires
        i <= s@.len(),
    ensures
        match num_at(s@, i as int) {
            None => r is None,
            Some((n, j)) => if n <= u64::MAX {
                r == Some((n as u64, j as usize))
            } else {
                r is None
            },
        },
{
    let n = s.len();
    let mut e = i;
    while e < n && s[e] >= 48 && s[e] <= 57
        invariant
            i <= e <= n,
            n == s@.len(),
            digits_end(s@, i as int) == digits_end(s@, e as int),
        decreases n - e,
    {
        e += 1;
    }
    proof {
        assert(digits_end(s@, e as int) == e as int);
        lemma_digits_end(s@, i as int);
    }
    if e == i {
        return None;
    }
    if s[i] == 48 && e > i + 1 {
        return None;
    }
    match crate::numtext::dec_value_of(s, i, e) {
        None => None,
        Some(v) => Some((v, e)),
    }
}

/// Parse the role list (and its closing bracket) at `i`, when every value
/// fits in 64 bits.
fn exec_roles(s: &Vec<u8>, i: usize) -> (r: Option<(Vec<u64>, usize)>)
    requires
        i <= s@.len(),
    ensures
        match roles_at(s@, i as int) {
            None => r is None,
            Some((roles, j)) => if roles_fit(roles) {
                r matches Some(p) && p.0@.map_values(|x: u64| x as nat) == roles && p.1 == j
            } else {
                r is None
            },
        },
    decreases s@.len() - i,
{
    let nlen = s.len();
    match exec_num(s, i) {
        None => {
            proof {
                if num_at(s@, i as int) is Some && roles_at(s@, i as int) is Some {
                    let (roles, k) = roles_at(s@, i as int)->Some_0;
                    assert(roles[0] > u64::MAX);
                    assert(!roles_fit(roles));
                }
            }
            None
        },
        Some((v, j)) => {
            proof {
                lemma_num_at_pos(s@, i as int);
            }
            if j < nlen && s[j] == 44 {
                match exec_roles(s, j + 1) {
                    None => {
                        proof {
                            if roles_at(s@, j + 1 as int) is Some && roles_at(
                                s@,
                                i as int,
                            ) is Some {
                                let (rest, _) = roles_at(s@, j + 1 as int)->Some_0;
                                let (roles, _) = roles_at(s@, i as int)->Some_0;
                                assert(roles =~= seq![v as nat] + rest);
                                if !roles_fit(rest) {
                                    let m = choose|m: int|
                                        0 <= m < rest.len() && rest[m] > u64::MAX;
                                    assert(roles[m + 1] == rest[m]);
                                    assert(!roles_fit(roles));
                                }
                            }
                        }
                        None
                    },
                    Some((mut rest, k)) => {
                        let ghost old_rest = rest@;
                        rest.insert(0, v);
                        proof {
                            let (roles, _) = roles_at(s@, i as int)->Some_0;
                            let (rspec, _) = roles_at(s@, j + 1 as int)->Some_0;
                            assert(roles == seq![v as nat] + rspec);
                            assert(roles_fit(roles)) by {
                                assert forall|m: int| 0 <= m < roles.len() implies roles[m]
                                    <= u64::MAX by {
                                    if m > 0 {
                                        assert(roles[m] == rspec[m - 1]);
                                    }
                                }
                            }
                            assert(rest@ =~= seq![v] + old_rest);
                            assert(rest@.map_values(|x: u64| x as nat) =~= roles);
                        }
                        Some((rest, k))
                    },
                }
            } else if j < nlen && s[j] == 93 {
                let mut one: Vec<u64> = Vec::new();
                one.push(v);
                proof {
                    let (roles, _) = roles_at(s@, i as int)->Some_0;
                    assert(roles == seq![v as nat]);
                    assert(one@.map_values(|x: u64| x as nat) =~= roles);
                }
                Some((one, j + 1))
            } else {
                None
            }
        },
    }
}

/// Parse the entry at `i`, when its values fit in 64 bits.
fn exec_entry(s: &Vec<u8>, i: usize) -> (r: Option<((u64, Vec<u64>), usize)>)
    requires
        i <= s@.len(),
    ensures
        match entry_at(s@, i as int) {
            None => r is None,
            Some(((srv, roles), j)) => if srv <= u64::MAX && roles_fit(roles) {
                r matches Some(p) && p.0.0 as nat == srv && p.0.1@.map_values(|x: u64| x as nat)
                    == roles && p.1 == j
            } else {
                r is None
            },
        },
{
    let nlen = s.len();
    if i < nlen && s[i] == 34 {
        match exec_num(s, i + 1) {
            None => None,
            Some((srv, j)) => {
                proof {
                    lemma_num_at_pos(s@, i + 1 as int);
                }
                if nlen - j >= 3 && s[j] == 34 && s[j + 1] == 58 && s[j + 2] == 91 {
                    if j + 3 < nlen && s[j + 3] == 93 {
                        let empty_roles: Vec<u64> = Vec::new();
                        proof {
                            assert(empty_roles@.map_values(|x: u64| x as nat) =~= Seq::<
                                nat,
                            >::empty());
                        }
                        Some(((srv, empty_roles), j + 4))
                    } else {
                        match exec_roles(s, j + 3) {
                            None => None,
                            Some((roles, k)) => Some(((srv, roles), k)),
                        }
                    }
                } else {
                    None
                }
            },
        }
    } else {
        None
    }
}

/// Parse the entry list (and the inner closing brace) at `i`, when every
/// value fits in 64 bits.
fn exec_entries(s: &Vec<u8>, i: usize) -> (r: Option<(Vec<(u64, Vec<u64>)>, usize)>)
    requires
        i <= s@.len(),
    ensures
        match entries_at(s@, i as int) {
            None => r is None,
            Some((raw, j)) => if raw_fits(raw) {
                r matches Some(p) && raw_of_pairs(p.0@) == raw && p.1 == j
            } else {
                r is None
            },
        },
    decreases s@.len() - i,
{
    let nlen = s.len();
    match exec_entry(s, i) {
        None => {
            proof {
                if entry_at(s@, i as int) is Some && entries_at(s@, i as int) is Some {
                    let (raw, _) = entries_at(s@, i as int)->Some_0;
                    let (e0, _) = entry_at(s@, i as int)->Some_0;
                    assert(raw[0] == e0);
                    assert(!raw_fits(raw));
                }
            }
            None
        },
        Some((pair, j)) => {
            proof {
                lemma_entry_at_pos(s@, i as int);
            }
            if j < nlen && s[j] == 44 {
                match exec_entries(s, j + 1) {
                    None => {
                        proof {
                            if entries_at(s@, j + 1 as int) is Some && entries_at(
                                s@,
                                i as int,
                            ) is Some {
                                let (rest, _) = entries_at(s@, j + 1 as int)->Some_0;
                                let (raw, _) = entries_at(s@, i as int)->Some_0;
                                if !raw_fits(rest) {
                                    let m = choose|m: int|
                                        0 <= m < rest.len() && !((#[trigger] rest[m]).0 <= u64::MAX
                                            && roles_fit(rest[m].1));
                                    assert(raw[m + 1] == rest[m]);
                                    assert(!raw_fits(raw));
                                }
                            }
                        }
                        None
                    },
                    Some((mut rest, k)) => {
                        let ghost old_rest = rest@;
                        rest.insert(0, pair);
                        proof {
                            let (raw, _) = entries_at(s@, i as int)->Some_0;
                            let (rspec, _) = entries_at(s@, j + 1 as int)->Some_0;
                            assert(raw == seq![entry_at(s@, i as int)->Some_0.0] + rspec);
                            assert(raw_fits(raw)) by {
                                assert forall|m: int| 0 <= m < raw.len() implies (
                                #[trigger] raw[m]).0 <= u64::MAX && roles_fit(raw[m].1) by {
                                    if m > 0 {
                                        assert(raw[m] == rspec[m - 1]);
                                    }
                                }
                            }
                            assert(rest@ =~= seq![pair] + old_rest);
                            assert(raw_of_pairs(rest@) =~= raw);
                        }
                        Some((rest, k))
                    },
                }
            } else if j < nlen && s[j] == 125 {
                let mut one: Vec<(u64, Vec<u64>)> = Vec::new();
                one.push(pair);
                proof {
                    let (raw, _) = entries_at(s@, i as int)->Some_0;
                    assert(raw == seq![entry_at(s@, i as int)->Some_0.0]);
                    assert(raw_of_pairs(one@) =~= raw);
                }
                Some((one, j + 1))
            } else {
                None
            }
        },
    }
}

/// Some parsed entry associates `role` with `server`.
pub open spec fn raw_mem(raw: Seq<(nat, Seq<nat>)>, server: u64, role: u64) -> bool {
    exists|i: int|
        0 <= i < raw.len() && (#[trigger] raw[i]).0 == server as nat && raw[i].1.contains(
            role as nat,
        )
}

/// The mapping `m` holds a server exactly when some pair of `raw` gives it
/// a role, and gives it exactly the roles the pairs mention.
pub open spec fn loaded(raw: Seq<(nat, Seq<nat>)>, m: Map<u64, Seq<u64>>) -> bool {
    &&& forall|k: u64| #[trigger] m.contains_key(k) <==> exists|x: u64| raw_mem(raw, k, x)
    &&& forall|k: u64, x: u64|
        m.contains_key(k) ==> (#[trigger] m[k].contains(x) <==> raw_mem(raw, k, x))
}

/// What loading raw pairs produces: a well-formed mapping that holds a
/// server exactly when some parsed entry gives it a role, and gives it
/// exactly the roles the parsed entries mention — sorted, deduplicated,
/// empty entries pruned, duplicate server keys merged.
pub open spec fn load_effect(raw: Seq<(nat, Seq<nat>)>, m: Map<u64, Seq<u64>>) -> bool {
    &&& wf_map(m)
    &&& loaded(raw, m)
}

/// Read a registry back from the persistence format. Whitespace bytes may
/// stand anywhere in the text and are ignored. Bytes outside the format are
/// malformed; numbers that do not fit in 64 bits are malformed; whatever
/// loads is normalized: role lists sorted and deduplicated, empty entries
/// pruned, duplicate server keys merged.
pub fn decode(bytes: &Vec<u8>) -> (r: Result<AdminRoleRegistry, PersistenceError>)
    ensures
        match spec_decode(strip_ws(bytes@)) {
            None => r matches Err(e) && e == PersistenceError::Malformed,
            Some(raw) => if raw_fits(raw) {
                r matches Ok(reg) && reg.wf() && load_effect(raw, reg@)
            } else {
                r matches Err(e) && e == PersistenceError::Malformed
            },
        },
{
    let lean = strip_whitespace(bytes);
    let n = lean.len();
    if n < 16 {
        return Err(PersistenceError::Malformed);
    }
    let header_ok = lean[0] == 123 && lean[1] == 34 && lean[2] == 97 && lean[3] == 100
        && lean[4] == 109 && lean[5] == 105 && lean[6] == 110 && lean[7] == 95 && lean[8]
        == 114 && lean[9] == 111 && lean[10] == 108 && lean[11] == 101 && lean[12] == 115
        && lean[13] == 34 && lean[14] == 58 && lean[15] == 123;
    proof {
        if header_ok {
            assert(lean@.subrange(0, 16) =~= header()) by {
                assert forall|k: int| 0 <= k < 16 implies lean@.subrange(0, 16)[k]
                    == header()[k] by {
                    assert(lean@.subrange(0, 16)[k] == lean@[k]);
                }
            }
        } else {
            assert(lean@.subrange(0, 16) != header()) by {
                if lean@.subrange(0, 16) == header() {
                    assert forall|k: int| 0 <= k < 16 implies lean@[k] == header()[k] by {
                        assert(lean@.subrange(0, 16)[k] == lean@[k]);
                    }
                    assert(lean@[0] == 123 && lean@[1] == 34 && lean@[2] == 97 && lean@[3]
                        == 100 && lean@[4] == 109 && lean@[5] == 105 && lean@[6] == 110
                        && lean@[7] == 95 && lean@[8] == 114 && lean@[9] == 111 && lean@[10]
                        == 108 && lean@[11] == 101 && lean@[12] == 115 && lean@[13] == 34
                        && lean@[14] == 58 && lean@[15] == 123);
                }
            }
        }
    }
    if !header_ok {
        return Err(PersistenceError::Malformed);
    }
    if n == 18 && lean[16] == 125 && lean[17] == 125 {
        let reg = crate::registry::AdminRoleRegistry::new();
        proof {
            reg.lemma_wf_map();
        }
        return Ok(reg);
    }
    match exec_entries(&lean, 16) {
        None => Err(PersistenceError::Malformed),
        Some((pairs, j)) => {
            if j < n && lean[j] == 125 && j + 1 == n {
                let ghost raw = entries_at(lean@, 16)->Some_0.0;
                let mut reg = crate::registry::AdminRoleRegistry::new();
                let m = pairs.len();
                proof {
                    assert(raw == raw_of_pairs(pairs@));
                    assert(raw.len() == m);
                }
                proof {
                    assert(raw.subrange(0, 0) =~= Seq::<(nat, Seq<nat>)>::empty());
                }
                for idx in 0..m
                    invariant
                        reg.wf(),
                        m == pairs@.len(),
                        raw == raw_of_pairs(pairs@),
                        raw.len() == m,
                        raw_fits(raw),
                        loaded(raw.subrange(0, idx as int), reg@),
                {
                    let ghost pre = reg@;
                    let ghost srv = pairs@[idx as int].0;
                    let ghost roles_v = pairs@[idx as int].1@;
                    let ghost sub0 = raw.subrange(0, idx as int);
                    let ghost sub1 = raw.subrange(0, idx + 1 as int);
                    proof {
                        assert(loaded(sub0, pre));
                    }
                    reg.add_admin_roles(pairs[idx].0, &pairs[idx].1);
                    proof {
                        assert(raw[idx as int] == (srv as nat, roles_v.map_values(
                            |x: u64| x as nat,
                        )));
                        // membership in the grown prefix
                        assert forall|k: u64, x: u64|
                            raw_mem(sub1, k, x) <==> (raw_mem(sub0, k, x) || (k == srv
                                && roles_v.contains(x))) by {
                            if raw_mem(sub1, k, x) {
                                let i = choose|i: int|
                                    0 <= i < sub1.len() && (#[trigger] sub1[i]).0 == k as nat
                                        && sub1[i].1.contains(x as nat);
                                if i < idx {
                                    assert(sub0[i] == sub1[i]);
                                    assert(raw_mem(sub0, k, x));
                                } else {
                                    assert(sub1[i] == raw[idx as int]);
                                    assert(k as nat == srv as nat);
                                    assert(k == srv);
                                    let mapped = roles_v.map_values(|x: u64| x as nat);
                                    let mm = choose|mm: int|
                                        0 <= mm < mapped.len() && mapped[mm] == x as nat;
                                    assert(roles_v[mm] == x);
                                    assert(roles_v.contains(x));
                                }
                            }
                            if raw_mem(sub0, k, x) {
                                let i = choose|i: int|
                                    0 <= i < sub0.len() && (#[trigger] sub0[i]).0 == k as nat
                                        && sub0[i].1.contains(x as nat);
                                assert(sub1[i] == sub0[i]);
                                assert(raw_mem(sub1, k, x));
                            }
                            if k == srv && roles_v.contains(x) {
                                let mm = choose|mm: int|
                                    0 <= mm < roles_v.len() && roles_v[mm] == x;
                                assert(roles_v.map_values(|x: u64| x as nat)[mm] == x as nat);
                                assert(sub1[idx as int] == raw[idx as int]);
                                assert(sub1[idx as int].1.contains(x as nat));
                                assert(raw_mem(sub1, k, x));
                            }
                        }
                        // the add settles the new mapping
                        assert forall|k: u64| #[trigger]
                            reg@.contains_key(k) <==> exists|x: u64| raw_mem(sub1, k, x) by {
                            if k != srv {
                                assert(reg@.contains_key(k) <==> pre.contains_key(k));
                                if exists|x: u64| raw_mem(sub1, k, x) {
                                    let x = choose|x: u64| raw_mem(sub1, k, x);
                                    assert(raw_mem(sub0, k, x));
                                }
                                if exists|x: u64| raw_mem(sub0, k, x) {
                                    let x = choose|x: u64| raw_mem(sub0, k, x);
                                    assert(raw_mem(sub1, k, x));
                                }
                            } else {
                                if reg@.contains_key(srv) {
                                    if pre.contains_key(srv) {
                                        let x0 = pre[srv][0];
                                        assert(pre[srv].contains(x0));
                                        assert(raw_mem(sub0, srv, x0));
                                        assert(raw_mem(sub1, srv, x0));
                                    } else {
                                        assert(roles_v.len() > 0);
                                        assert(roles_v.contains(roles_v[0]));
                                        assert(raw_mem(sub1, srv, roles_v[0]));
                                    }
                                }
                                if exists|x: u64| raw_mem(sub1, srv, x) {
                                    let x = choose|x: u64| raw_mem(sub1, srv, x);
                                    if raw_mem(sub0, srv, x) {
                                        assert(pre.contains_key(srv));
                                        assert(reg@.contains_key(srv));
                                    } else {
                                        assert(roles_v.contains(x));
                                        assert(roles_v.len() > 0);
                                        assert(reg@.contains_key(srv));
                                    }
                                }
                            }
                        }
                        assert forall|k: u64, x: u64|
                            reg@.contains_key(k) implies (#[trigger] reg@[k].contains(x) <==>
                        raw_mem(sub1, k, x)) by {
                            if k != srv {
                                assert(pre.contains_key(k) && reg@[k] == pre[k]);
                            } else {
                                if !pre.contains_key(srv) {
                                    if raw_mem(sub0, srv, x) {
                                        assert(exists|y: u64| raw_mem(sub0, srv, y));
                                        assert(false);
                                    }
                                }
                            }
                        }
                        assert(loaded(sub1, reg@));
                        assert(sub1 == raw.subrange(0, idx + 1));
                    }
                }
                proof {
                    assert(raw.subrange(0, m as int) == raw);
                    reg.lemma_wf_map();
                }
                Ok(reg)
            } else {
                Err(PersistenceError::Malformed)
            }
        },
    }
}

/// Save followed by load reproduces an equivalent registry: rendering a
/// registry and reading the bytes back always succeeds and gives the same
/// server-to-role-list mapping.
pub fn reload(reg: &AdminRoleRegistry) -> (r: AdminRoleRegistry)
    requires
        reg.wf(),
    ensures
        r.wf(),
        r@ == reg@,
{
    let bytes = encode(reg);
    proof {
        lemma_decode_encode(reg.entries@);
    }
    match decode(&bytes) {
        Ok(back) => {
            proof {
                lemma_load_after_save(reg.entries@, back@);
            }
            back
        },
        Err(_) => {
            proof {
                assert(false);
            }
            AdminRoleRegistry::new()
        },
    }
}

/// Loading what was saved reproduces the same mapping: any registry whose
/// content satisfies the load effect of a saved registry's raw pairs is
/// that registry's mapping.
pub proof fn lemma_load_after_save(entries: Seq<ServerEntry>, m2: Map<u64, Seq<u64>>)
    requires
        wf_entries(entries),
        load_effect(raw_of(entries), m2),
    ensures
        m2 == map_of(entries),
{
    let raw = raw_of(entries);
    let m1 = map_of(entries);
    assert forall|k: u64| m2.contains_key(k) <==> m1.contains_key(k) by {
        if exists|x: u64| raw_mem(raw, k, x) {
            let x = choose|x: u64| raw_mem(raw, k, x);
            let i = choose|i: int|
                0 <= i < raw.len() && (#[trigger] raw[i]).0 == k as nat && raw[i].1.contains(
                    x as nat,
                );
            assert(entries[i].server == k);
            assert(crate::registry::has_server(entries, k));
        }
        if m1.contains_key(k) {
            let i = crate::registry::index_of_server(entries, k);
            assert(0 <= i < entries.len() && entries[i].server == k);
            let x0 = entries[i].roles@[0];
            assert(entries[i].roles@.contains(x0));
            assert(raw[i].0 == k as nat);
            assert(raw[i].1[0] == x0 as nat);
            assert(raw[i].1.contains(x0 as nat));
            assert(raw_mem(raw, k, x0));
        }
    }
    assert forall|k: u64| m2.contains_key(k) implies m2[k] == m1[k] by {
        let i = crate::registry::index_of_server(entries, k);
        crate::registry::lemma_entry_lookup(entries, i);
        assert(m1[k] == entries[i].roles@);
        assert forall|x: u64| m2[k].contains(x) <==> m1[k].contains(x) by {
            if raw_mem(raw, k, x) {
                let i2 = choose|i2: int|
                    0 <= i2 < raw.len() && (#[trigger] raw[i2]).0 == k as nat && raw[i2].1.contains(
                        x as nat,
                    );
                assert(entries[i2].server == k);
                crate::registry::lemma_entry_lookup(entries, i2);
                assert(i2 == i);
                let mm = choose|mm: int|
                    0 <= mm < raw[i].1.len() && raw[i].1[mm] == x as nat;
                assert(entries[i].roles@[mm] as nat == x as nat);
                assert(entries[i].roles@[mm] == x);
                assert(m1[k].contains(x));
            }
            if m1[k].contains(x) {
                let mm = choose|mm: int|
                    0 <= mm < entries[i].roles@.len() && entries[i].roles@[mm] == x;
                assert(raw[i].1[mm] == x as nat);
                assert(raw[i].1.contains(x as nat));
                assert(raw_mem(raw, k, x));
            }
        }
        crate::registry::lemma_sorted_unique_canonical(m2[k], m1[k]);
    }
    assert(m2 =~= m1);
}

} // verus!
