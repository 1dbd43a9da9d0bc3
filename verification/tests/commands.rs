use botadmin::command::{
    handle_admin, nuke_after_fetch, nuke_fetch_count, nuke_targets, parse_admin_verb,
    AdminCommandOutcome, AdminVerb, CommandId, NukeAction, command_alias, command_description,
    command_help_message, lookup_role_name, module_description, module_name,
};
use botadmin::registry::AdminRoleRegistry;

#[test]
fn verb_is_the_first_token_case_insensitive() {
    assert_eq!(parse_admin_verb(&b"list".to_vec()), AdminVerb::List);
    assert_eq!(parse_admin_verb(&b"  LIST extra words".to_vec()), AdminVerb::List);
    assert_eq!(parse_admin_verb(&b"Add".to_vec()), AdminVerb::Add);
    assert_eq!(parse_admin_verb(&b"\tReMoVe them".to_vec()), AdminVerb::Remove);
    assert_eq!(parse_admin_verb(&b"".to_vec()), AdminVerb::Help);
    assert_eq!(parse_admin_verb(&b"   ".to_vec()), AdminVerb::Help);
    assert_eq!(parse_admin_verb(&b"lists".to_vec()), AdminVerb::Help);
    assert_eq!(parse_admin_verb(&b"drop 3".to_vec()), AdminVerb::Help);
    // only the first token counts
    assert_eq!(parse_admin_verb(&b"junk list".to_vec()), AdminVerb::Help);
}

#[test]
fn nuke_count_adds_one_for_the_invocation() {
    assert_eq!(nuke_fetch_count(&b"5".to_vec()), Some(6));
    assert_eq!(nuke_fetch_count(&b"  3 extra".to_vec()), Some(4));
    assert_eq!(nuke_fetch_count(&b"0".to_vec()), None);
    assert_eq!(nuke_fetch_count(&b"abc".to_vec()), None);
    assert_eq!(nuke_fetch_count(&b"5x".to_vec()), None);
    assert_eq!(nuke_fetch_count(&b"".to_vec()), None);
    assert_eq!(nuke_fetch_count(&b"007".to_vec()), Some(8));
    // too large to represent the fetch size
    assert_eq!(nuke_fetch_count(&b"18446744073709551615".to_vec()), None);
    assert_eq!(nuke_fetch_count(&b"99999999999999999999999".to_vec()), None);
}

#[test]
fn nuke_deletes_everything_without_mentions() {
    let messages: Vec<(u64, u64)> = vec![(100, 1), (101, 2), (102, 1)];
    assert_eq!(nuke_targets(&messages, &Vec::new()), vec![100, 101, 102]);
}

#[test]
fn nuke_five_fetches_six_and_deletes_all_six() {
    let amount = nuke_fetch_count(&b"5".to_vec()).unwrap();
    assert_eq!(amount, 6);
    let messages: Vec<(u64, u64)> =
        vec![(100, 1), (101, 2), (102, 1), (103, 3), (104, 2), (105, 1)];
    assert_eq!(messages.len() as u64, amount);
    let ids = nuke_targets(&messages, &Vec::new());
    assert_eq!(ids, vec![100, 101, 102, 103, 104, 105]);
}

#[test]
fn nuke_deletes_only_mentioned_authors() {
    // `nuke 3 @userA`: four fetched messages, only userA's are deleted
    let user_a: u64 = 7;
    let messages: Vec<(u64, u64)> = vec![(100, user_a), (101, 2), (102, user_a), (103, 3)];
    assert_eq!(nuke_targets(&messages, &vec![user_a]), vec![100, 102]);
}

#[test]
fn fetch_failure_is_reported_not_retried() {
    let action = nuke_after_fetch(&None, &Vec::new());
    match action {
        NukeAction::Reply(text) => assert_eq!(text, "Error getting the recent messages."),
        NukeAction::Delete(_) => panic!("a failed fetch must be reported"),
    }
}

#[test]
fn successful_fetch_is_narrowed_and_deleted() {
    let user_a: u64 = 7;
    let fetched = Some(vec![(100, user_a), (101, 2), (102, user_a), (103, 3)]);
    match nuke_after_fetch(&fetched, &vec![user_a]) {
        NukeAction::Delete(ids) => assert_eq!(ids, vec![100, 102]),
        NukeAction::Reply(_) => panic!("a successful fetch must delete"),
    }
    match nuke_after_fetch(&fetched, &Vec::new()) {
        NukeAction::Delete(ids) => assert_eq!(ids, vec![100, 101, 102, 103]),
        NukeAction::Reply(_) => panic!("a successful fetch must delete"),
    }
}

#[test]
fn admin_add_and_remove_mutate_the_store() {
    let mut reg = AdminRoleRegistry::new();
    let table: Vec<(u64, String)> = Vec::new();
    let out = handle_admin(&mut reg, 10, &b"add".to_vec(), &vec![5, 5, 3], &table);
    assert!(matches!(out, AdminCommandOutcome::Updated));
    assert_eq!(reg.get_admin_roles(10), Some(&vec![3, 5]));
    let out = handle_admin(&mut reg, 10, &b"remove".to_vec(), &vec![3, 5], &table);
    assert!(matches!(out, AdminCommandOutcome::Updated));
    assert_eq!(reg.get_admin_roles(10), None);
}

#[test]
fn admin_add_without_mentions_replies() {
    let mut reg = AdminRoleRegistry::new();
    let table: Vec<(u64, String)> = Vec::new();
    let out = handle_admin(&mut reg, 10, &b"add".to_vec(), &Vec::new(), &table);
    assert!(matches!(out, AdminCommandOutcome::NoRolesMentioned));
    let out = handle_admin(&mut reg, 10, &b"remove".to_vec(), &Vec::new(), &table);
    assert!(matches!(out, AdminCommandOutcome::NoRolesMentioned));
    assert_eq!(reg.get_admin_roles(10), None);
}

#[test]
fn admin_list_reports_roles_with_current_names() {
    let mut reg = AdminRoleRegistry::new();
    reg.add_admin_roles(10, &vec![5, 3]);
    let table: Vec<(u64, String)> = vec![(3, String::from("mods")), (9, String::from("other"))];
    match handle_admin(&mut reg, 10, &b"list".to_vec(), &Vec::new(), &table) {
        AdminCommandOutcome::Listing { lines } => {
            assert_eq!(lines.len(), 2);
            assert_eq!(lines[0].role, 3);
            assert_eq!(lines[0].name, Some(String::from("mods")));
            assert_eq!(lines[1].role, 5);
            assert_eq!(lines[1].name, None);
        },
        _ => panic!("expected a listing"),
    }
}

#[test]
fn admin_list_without_configuration_replies() {
    let mut reg = AdminRoleRegistry::new();
    let table: Vec<(u64, String)> = Vec::new();
    let out = handle_admin(&mut reg, 10, &b"list".to_vec(), &Vec::new(), &table);
    assert!(matches!(out, AdminCommandOutcome::NoAdminRoles));
}

#[test]
fn unknown_verb_asks_for_help() {
    let mut reg = AdminRoleRegistry::new();
    reg.add_admin_roles(10, &vec![4]);
    let table: Vec<(u64, String)> = Vec::new();
    let out = handle_admin(&mut reg, 10, &b"frobnicate".to_vec(), &vec![1], &table);
    assert!(matches!(out, AdminCommandOutcome::Help));
    assert_eq!(reg.get_admin_roles(10), Some(&vec![4]));
}

#[test]
fn role_name_lookup_takes_the_first_match() {
    let table: Vec<(u64, String)> = vec![(3, String::from("a")), (3, String::from("b"))];
    assert_eq!(lookup_role_name(&table, 3), Some(String::from("a")));
    assert_eq!(lookup_role_name(&table, 4), None);
}

#[test]
fn command_metadata_matches_the_dispatcher_registration() {
    assert_eq!(module_name(), "Admin");
    assert_eq!(module_description(), "Various management commands.");
    assert_eq!(command_alias(CommandId::Admin), "admin");
    assert_eq!(command_alias(CommandId::Nuke), "nuke");
    assert_eq!(command_description(CommandId::Admin), "Manage the admin roles.");
    assert_eq!(command_description(CommandId::Nuke), "Deletes past messages.");
    assert!(command_help_message(CommandId::Admin).contains("`!admin list`"));
    assert!(command_help_message(CommandId::Nuke).contains("`!nuke <how many> [whose]`"));
}
