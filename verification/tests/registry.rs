use botadmin::registry::AdminRoleRegistry;

fn roles_of(reg: &AdminRoleRegistry, server: u64) -> Option<Vec<u64>> {
    reg.get_admin_roles(server).cloned()
}

#[test]
fn add_sorts_and_dedups() {
    let mut reg = AdminRoleRegistry::new();
    reg.add_admin_roles(10, &vec![5, 5, 3]);
    assert_eq!(roles_of(&reg, 10), Some(vec![3, 5]));
}

#[test]
fn add_twice_is_idempotent() {
    let mut once = AdminRoleRegistry::new();
    once.add_admin_roles(7, &vec![9, 2]);
    let mut twice = AdminRoleRegistry::new();
    twice.add_admin_roles(7, &vec![9, 2]);
    twice.add_admin_roles(7, &vec![9, 2]);
    assert_eq!(roles_of(&once, 7), roles_of(&twice, 7));
    assert_eq!(roles_of(&twice, 7), Some(vec![2, 9]));
}

#[test]
fn remove_absent_is_noop() {
    let mut reg = AdminRoleRegistry::new();
    reg.add_admin_roles(1, &vec![4, 8]);
    reg.remove_admin_roles(1, &vec![5]);
    assert_eq!(roles_of(&reg, 1), Some(vec![4, 8]));
    reg.remove_admin_roles(99, &vec![4]);
    assert_eq!(roles_of(&reg, 1), Some(vec![4, 8]));
    assert_eq!(roles_of(&reg, 99), None);
}

#[test]
fn remove_all_prunes_entry() {
    let mut reg = AdminRoleRegistry::new();
    reg.add_admin_roles(10, &vec![5, 5, 3]);
    reg.remove_admin_roles(10, &vec![3, 5]);
    assert_eq!(roles_of(&reg, 10), None);
}

#[test]
fn lists_stay_sorted_unique_across_operations() {
    let mut reg = AdminRoleRegistry::new();
    let steps: Vec<(bool, u64, Vec<u64>)> = vec![
        (true, 1, vec![9, 1, 9, 4]),
        (true, 2, vec![7]),
        (true, 1, vec![4, 2]),
        (false, 1, vec![9]),
        (true, 2, vec![7, 7, 7]),
        (false, 2, vec![1]),
    ];
    for (is_add, server, roles) in steps {
        if is_add {
            reg.add_admin_roles(server, &roles);
        } else {
            reg.remove_admin_roles(server, &roles);
        }
        for probe in [1u64, 2u64] {
            if let Some(list) = reg.get_admin_roles(probe) {
                assert!(!list.is_empty());
                for w in list.windows(2) {
                    assert!(w[0] < w[1]);
                }
            }
        }
    }
    assert_eq!(roles_of(&reg, 1), Some(vec![1, 2, 4]));
    assert_eq!(roles_of(&reg, 2), Some(vec![7]));
}

#[test]
fn independent_servers_do_not_interfere() {
    let mut reg = AdminRoleRegistry::new();
    reg.add_admin_roles(3, &vec![30]);
    reg.add_admin_roles(1, &vec![10]);
    reg.add_admin_roles(2, &vec![20]);
    reg.remove_admin_roles(2, &vec![20]);
    assert_eq!(roles_of(&reg, 1), Some(vec![10]));
    assert_eq!(roles_of(&reg, 2), None);
    assert_eq!(roles_of(&reg, 3), Some(vec![30]));
}
