use botadmin::auth::{AuthStep, ChannelKind, Denial};
use botadmin::codec::decode;
use botadmin::command::AdminCommandOutcome;
use botadmin::guard::GuardedRegistry;
use botadmin::registry::AdminRoleRegistry;

#[test]
fn guarded_reads_see_the_wrapped_registry() {
    let mut reg = AdminRoleRegistry::new();
    reg.add_admin_roles(10, &vec![5, 3]);
    let guard = GuardedRegistry::new(reg);
    assert_eq!(guard.get_admin_roles(10), Some(vec![3, 5]));
    assert_eq!(guard.get_admin_roles(11), None);
}

#[test]
fn guarded_mutation_returns_the_bytes_to_persist() {
    let guard = GuardedRegistry::new(AdminRoleRegistry::new());
    let table: Vec<(u64, String)> = Vec::new();
    let (outcome, bytes, session) =
        guard.admin_command(10, &b"add".to_vec(), &vec![5, 5, 3], &table);
    assert!(matches!(outcome, AdminCommandOutcome::Updated));
    let bytes = bytes.expect("a mutation must hand back the form to persist");
    assert_eq!(bytes, b"{\"admin_roles\":{\"10\":[3,5]}}".to_vec());
    // the caller persists the bytes, then closes the session
    session.finish();
    // what was handed out loads back to what the guard now holds
    let reloaded = decode(&bytes).unwrap();
    assert_eq!(reloaded.get_admin_roles(10), Some(&vec![3, 5]));
    assert_eq!(guard.get_admin_roles(10), Some(vec![3, 5]));
}

#[test]
fn guarded_reads_give_nothing_to_persist() {
    let guard = GuardedRegistry::new(AdminRoleRegistry::new());
    let table: Vec<(u64, String)> = Vec::new();
    let (outcome, bytes, session) = guard.admin_command(10, &b"list".to_vec(), &Vec::new(), &table);
    session.finish();
    assert!(matches!(outcome, AdminCommandOutcome::NoAdminRoles));
    assert!(bytes.is_none());
}

#[test]
fn the_lock_is_held_until_the_session_closes() {
    let guard = GuardedRegistry::new(AdminRoleRegistry::new());
    let table: Vec<(u64, String)> = Vec::new();
    let (outcome, _bytes, session) =
        guard.admin_command(10, &b"add".to_vec(), &vec![4], &table);
    assert!(matches!(outcome, AdminCommandOutcome::Updated));
    // only after the session closes can readers proceed
    session.finish();
    assert_eq!(guard.get_admin_roles(10), Some(vec![4]));
}

#[test]
fn guarded_authorization_matches_the_resolver() {
    let mut reg = AdminRoleRegistry::new();
    reg.add_admin_roles(10, &vec![5]);
    let guard = GuardedRegistry::new(reg);
    let public = ChannelKind::Public { server: 10, owner: 42 };
    assert!(matches!(guard.begin_authorization(&public, 42), AuthStep::Granted));
    match guard.begin_authorization(&public, 7) {
        AuthStep::NeedMemberRoles { server, admin_roles } => {
            assert_eq!(server, 10);
            assert_eq!(admin_roles, vec![5]);
        },
        _ => panic!("expected a member-roles request"),
    }
    let step = guard.begin_authorization(&ChannelKind::Private, 42);
    assert!(matches!(step, AuthStep::Refused(Denial::PrivateChannel)));
}
