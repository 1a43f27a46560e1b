use fatty::copying::{
    copies_into, copy_opts, copy_plan, follows_links, is_confirmation, is_same_file,
    preserves_attributes, stripped_mode, CopyFlags, CopyPlan, FileKind, Follow,
};

fn flags() -> CopyFlags {
    CopyFlags {
        archive: false,
        force: false,
        interactive: false,
        preserve: false,
        recursive: false,
        follow_h: false,
        follow_l: false,
        follow_p: false,
    }
}

#[test]
fn archive_implies_recursive_and_preserve() {
    let o = copy_opts(CopyFlags { archive: true, ..flags() });
    assert!(o.recursive && o.preserve && o.archive);
    assert_eq!(o.follow, Follow::P);
    assert!(preserves_attributes(&o));
    assert!(!preserves_attributes(&copy_opts(flags())));
}

#[test]
fn follow_mode_by_precedence() {
    assert_eq!(copy_opts(flags()).follow, Follow::L);
    assert_eq!(copy_opts(CopyFlags { recursive: true, ..flags() }).follow, Follow::P);
    assert_eq!(copy_opts(CopyFlags { follow_p: true, ..flags() }).follow, Follow::P);
    assert_eq!(copy_opts(CopyFlags { follow_h: true, follow_p: true, ..flags() }).follow, Follow::H);
    assert_eq!(
        copy_opts(CopyFlags { follow_l: true, follow_h: true, recursive: true, ..flags() }).follow,
        Follow::L
    );
}

#[test]
fn links_followed_by_depth() {
    assert!(follows_links(Follow::L, 3));
    assert!(follows_links(Follow::H, 0));
    assert!(!follows_links(Follow::H, 1));
    assert!(!follows_links(Follow::P, 0));
}

#[test]
fn plans_by_kind() {
    let plain = copy_opts(flags());
    let archive = copy_opts(CopyFlags { archive: true, ..flags() });
    assert_eq!(copy_plan(FileKind::Directory, &plain), CopyPlan::NotRecursive);
    assert_eq!(copy_plan(FileKind::Directory, &archive), CopyPlan::Directory);
    assert_eq!(copy_plan(FileKind::Special, &plain), CopyPlan::Contents);
    assert_eq!(copy_plan(FileKind::Special, &archive), CopyPlan::Node);
    assert_eq!(copy_plan(FileKind::Symlink, &plain), CopyPlan::Link);
    assert_eq!(copy_plan(FileKind::Regular, &archive), CopyPlan::Contents);
}

#[test]
fn small_rules() {
    assert_eq!(stripped_mode(0o6755), 0o0755);
    assert_eq!(stripped_mode(0o1777), 0o1777);
    assert!(!copies_into(1, false));
    assert!(copies_into(1, true));
    assert!(copies_into(2, false));
    assert!(is_same_file(Some((1, 2)), Some((1, 2))));
    assert!(!is_same_file(Some((1, 2)), Some((1, 3))));
    assert!(!is_same_file(None, None));
}

#[test]
fn confirmations() {
    assert!(is_confirmation("y\n"));
    assert!(is_confirmation("  YES \n"));
    assert!(is_confirmation("Yes"));
    assert!(!is_confirmation("yEs\n"));
    assert!(!is_confirmation("no\n"));
    assert!(!is_confirmation(""));
}
