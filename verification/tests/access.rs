use cloud_store::access::{deciding_grant, entry_visibility, grant_applies, resolve_listing_visibility,
    resolve_permission, AccessGrant, DirEntry, FileEntry};
use cloud_store::identity::RequestContext;

fn a_grant(id: &str, user: &str, dir: &str, write: bool) -> AccessGrant {
    AccessGrant { id: id.to_string(), user: user.to_string(), dir: dir.to_string(), write }
}

fn a_user(id: &str) -> RequestContext {
    RequestContext::new(id.to_string(), 8)
}

fn an_admin(id: &str) -> RequestContext {
    RequestContext::new(id.to_string(), 1)
}

fn an_entry(name: &str, is_dir: bool) -> DirEntry {
    DirEntry { name: name.to_string(), is_dir }
}

fn listed(name: &str, is_dir: bool, writable: bool) -> FileEntry {
    FileEntry { name: name.to_string(), is_dir, writable }
}

#[test]
fn longest_prefix_precedence() {
    let grants = vec![a_grant("1", "u", "a", false), a_grant("2", "u", "a/b", true)];
    let ctx = a_user("u");
    assert!(resolve_permission(&ctx, &grants, "a/b/c", true));
    assert!(!resolve_permission(&ctx, &grants, "a/x", true));
    assert!(resolve_permission(&ctx, &grants, "a/x", false));
    assert_eq!(entry_visibility(&ctx, &grants, "a/b/c"), Some(true));
    assert_eq!(entry_visibility(&ctx, &grants, "a/x"), Some(false));
}

#[test]
fn listing_masking() {
    let grants = vec![a_grant("1", "u", "a/b", false)];
    let ctx = a_user("u");
    let in_a = vec![an_entry("b", true), an_entry("c", true)];
    assert_eq!(resolve_listing_visibility(&ctx, &grants, "a", &in_a), vec![listed("b", true, false)]);
    let in_ab = vec![an_entry("x.txt", false), an_entry("sub", true)];
    assert_eq!(
        resolve_listing_visibility(&ctx, &grants, "a/b", &in_ab),
        vec![listed("x.txt", false, false), listed("sub", true, false)]
    );
    let writing = vec![a_grant("1", "u", "a/b", true)];
    assert_eq!(
        resolve_listing_visibility(&ctx, &writing, "a/b", &in_ab),
        vec![listed("x.txt", false, true), listed("sub", true, true)]
    );
}

#[test]
fn the_directory_of_a_grant_carries_the_flag_of_the_grant() {
    let writing = vec![a_grant("1", "u", "a/b", true)];
    let ctx = a_user("u");
    let in_a = vec![an_entry("b", true), an_entry("c", true)];
    assert_eq!(resolve_listing_visibility(&ctx, &writing, "a", &in_a), vec![listed("b", true, true)]);
    let deeper = vec![a_grant("1", "u", "a/b/c", true)];
    assert_eq!(resolve_listing_visibility(&ctx, &deeper, "a", &in_a), vec![listed("b", true, false)]);
}

#[test]
fn listing_of_the_root_uses_bare_names() {
    let grants = vec![a_grant("1", "u", "a/b", true), a_grant("2", "u", "docs", false)];
    let ctx = a_user("u");
    let children = vec![an_entry("a", true), an_entry("docs", true), an_entry("other", true), an_entry("ab", false)];
    assert_eq!(
        resolve_listing_visibility(&ctx, &grants, "", &children),
        vec![listed("a", true, false), listed("docs", true, false)]
    );
}

#[test]
fn permission_is_given_iff_some_covering_grant_allows_it() {
    let grants = vec![
        a_grant("1", "u", "a", true),
        a_grant("2", "u", "a/b", false),
        a_grant("3", "v", "c", true),
    ];
    let u = a_user("u");
    assert!(resolve_permission(&u, &grants, "a", false));
    assert!(resolve_permission(&u, &grants, "a", true));
    assert!(resolve_permission(&u, &grants, "a/b/c", false));
    // the grant at "a" covers "a/b/c" and allows writing
    assert!(resolve_permission(&u, &grants, "a/b/c", true));
    assert!(!resolve_permission(&u, &grants, "c", false));
    assert!(!resolve_permission(&u, &grants, "", false));
    assert!(!resolve_permission(&u, &grants, "ab", false));
    let v = a_user("v");
    assert!(resolve_permission(&v, &grants, "c/d", true));
    assert!(!resolve_permission(&v, &grants, "a", false));
    let nobody = a_user("w");
    assert!(!resolve_permission(&nobody, &grants, "a", false));
    assert!(!resolve_permission(&u, &Vec::new(), "a", false));
}

#[test]
fn permission_ignores_trailing_separators_of_the_path() {
    let grants = vec![a_grant("1", "u", "a/b", true)];
    let ctx = a_user("u");
    assert!(resolve_permission(&ctx, &grants, "a/b/", true));
    assert!(resolve_permission(&ctx, &grants, "a/b///", false));
    assert!(!resolve_permission(&ctx, &grants, "a/", false));
}

#[test]
fn sibling_with_a_common_prefix_is_not_covered() {
    let grants = vec![a_grant("1", "u", "ab", true)];
    let ctx = a_user("u");
    assert!(!resolve_permission(&ctx, &grants, "abc", false));
    assert!(!resolve_permission(&ctx, &grants, "abc/d", false));
    assert!(resolve_permission(&ctx, &grants, "ab/c", false));
    assert_eq!(entry_visibility(&ctx, &grants, "a"), None);
    assert_eq!(entry_visibility(&ctx, &grants, "abc"), None);
}

#[test]
fn admin_passes_without_grants() {
    let ctx = an_admin("root");
    assert!(resolve_permission(&ctx, &Vec::new(), "anything/at/all", true));
    let children = vec![an_entry("x", false), an_entry("y", true)];
    assert_eq!(
        resolve_listing_visibility(&ctx, &Vec::new(), "a", &children),
        vec![listed("x", false, true), listed("y", true, true)]
    );
    let grants = vec![a_grant("1", "root", "a", false)];
    assert_eq!(entry_visibility(&ctx, &grants, "a/x"), Some(true));
}

#[test]
fn the_last_of_equal_grants_decides() {
    let grants = vec![
        a_grant("1", "u", "a", true),
        a_grant("2", "u", "a/b", true),
        a_grant("3", "u", "a/b", false),
        a_grant("4", "v", "a/b/c", true),
    ];
    assert_eq!(deciding_grant(&grants, "u", "a/b/c"), Some(2));
    assert_eq!(deciding_grant(&grants, "u", "a/x"), Some(0));
    assert_eq!(deciding_grant(&grants, "u", "b"), None);
    assert_eq!(deciding_grant(&grants, "v", "a/b/c"), Some(3));
    assert_eq!(entry_visibility(&a_user("u"), &grants, "a/b/c"), Some(false));
}

#[test]
fn grant_applies_to_its_user_and_subtree() {
    let g = a_grant("1", "u", "docs", true);
    assert!(grant_applies(&g, "u", "docs"));
    assert!(grant_applies(&g, "u", "docs/readme.txt"));
    assert!(!grant_applies(&g, "v", "docs"));
    assert!(!grant_applies(&g, "u", "doc"));
}

#[test]
fn entries_above_a_grant_are_shown_read_only() {
    let grants = vec![a_grant("1", "u", "a/b/c", true)];
    let ctx = a_user("u");
    assert_eq!(entry_visibility(&ctx, &grants, "a"), Some(false));
    assert_eq!(entry_visibility(&ctx, &grants, "a/b"), Some(false));
    assert_eq!(entry_visibility(&ctx, &grants, "a/b/c"), Some(true));
    assert_eq!(entry_visibility(&ctx, &grants, "a/b/c/d"), Some(true));
    assert_eq!(entry_visibility(&ctx, &grants, "a/x"), None);
    assert_eq!(entry_visibility(&ctx, &grants, "a/b/cd"), None);
}

#[test]
fn a_new_grant_has_a_normalized_directory() {
    let g = AccessGrant::new("1".to_string(), "u".to_string(), "docs/sub//", true);
    assert_eq!(g, a_grant("1", "u", "docs/sub", true));
    let root = AccessGrant::new("2".to_string(), "u".to_string(), "/", false);
    assert_eq!(root, a_grant("2", "u", "", false));
    let plain = AccessGrant::new("3".to_string(), "v".to_string(), "a/b", false);
    assert_eq!(plain, a_grant("3", "v", "a/b", false));
}
