use botadmin::auth::{
    begin_authorization, denial_text, finish_authorization, roles_intersect, AuthStep,
    ChannelKind, Denial,
};
use botadmin::registry::AdminRoleRegistry;

#[test]
fn owner_bypasses_the_role_check() {
    // authorized even though no admin roles are configured at all
    let reg = AdminRoleRegistry::new();
    let channel = ChannelKind::Public { server: 10, owner: 42 };
    let step = begin_authorization(&channel, 42, &reg);
    assert!(matches!(step, AuthStep::Granted));
}

#[test]
fn non_owner_without_configuration_is_denied_silently() {
    let reg = AdminRoleRegistry::new();
    let channel = ChannelKind::Public { server: 10, owner: 42 };
    let step = begin_authorization(&channel, 7, &reg);
    assert!(matches!(step, AuthStep::Refused(Denial::NotAuthorized)));
    assert_eq!(denial_text(&Denial::NotAuthorized), None);
}

#[test]
fn non_owner_with_configuration_needs_member_roles() {
    let mut reg = AdminRoleRegistry::new();
    reg.add_admin_roles(10, &vec![5, 3]);
    let channel = ChannelKind::Public { server: 10, owner: 42 };
    match begin_authorization(&channel, 7, &reg) {
        AuthStep::NeedMemberRoles { server, admin_roles } => {
            assert_eq!(server, 10);
            assert_eq!(admin_roles, vec![3, 5]);
        },
        _ => panic!("expected a member-roles request"),
    }
}

#[test]
fn private_channel_is_denied_with_its_explanation() {
    // denied regardless of the author, owner included
    let mut reg = AdminRoleRegistry::new();
    reg.add_admin_roles(10, &vec![5]);
    for author in [7u64, 42u64] {
        let step = begin_authorization(&ChannelKind::Private, author, &reg);
        assert!(matches!(step, AuthStep::Refused(Denial::PrivateChannel)));
    }
    assert_eq!(
        denial_text(&Denial::PrivateChannel),
        Some(
            "Sorry, but you cannot use the admin commands through PMs. They don't make much sense here anyways.",
        ),
    );
}

#[test]
fn group_and_unknown_channels_are_denied_with_explanations() {
    let reg = AdminRoleRegistry::new();
    let step = begin_authorization(&ChannelKind::Group, 42, &reg);
    assert!(matches!(step, AuthStep::Refused(Denial::GroupChannel)));
    let step = begin_authorization(&ChannelKind::Unknown, 42, &reg);
    assert!(matches!(step, AuthStep::Refused(Denial::UnknownChannel)));
    assert_eq!(denial_text(&Denial::GroupChannel), Some("Admin commands in groups? Hm."));
    assert_eq!(
        denial_text(&Denial::UnknownChannel),
        Some("Huh, I couldn't get this channel's info for some reason. Try again I guess?"),
    );
}

#[test]
fn membership_decides_the_second_step() {
    let admin_roles = vec![3u64, 5u64];
    let step = finish_authorization(&admin_roles, &Some(vec![1, 5]));
    assert!(matches!(step, AuthStep::Granted));
    let step = finish_authorization(&admin_roles, &Some(vec![1, 2]));
    assert!(matches!(step, AuthStep::Refused(Denial::NotAuthorized)));
    let step = finish_authorization(&admin_roles, &Some(Vec::new()));
    assert!(matches!(step, AuthStep::Refused(Denial::NotAuthorized)));
}

#[test]
fn failed_member_fetch_is_denied_with_its_explanation() {
    let admin_roles = vec![3u64];
    let step = finish_authorization(&admin_roles, &None);
    assert!(matches!(step, AuthStep::Refused(Denial::MemberUnavailable)));
    assert_eq!(
        denial_text(&Denial::MemberUnavailable),
        Some("Sorry, I couldn't get your member info."),
    );
}

#[test]
fn intersection_finds_any_single_match() {
    assert!(roles_intersect(&vec![1, 2, 3], &vec![9, 3]));
    assert!(!roles_intersect(&vec![1, 2, 3], &vec![9, 4]));
    assert!(!roles_intersect(&Vec::new(), &vec![1]));
    assert!(!roles_intersect(&vec![1], &Vec::new()));
}
