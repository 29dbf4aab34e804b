use cloud_store::identity::{Permission, RequestContext};

#[test]
fn permission_bits() {
    assert_eq!(Permission::Admin.bit(), 1);
    assert_eq!(Permission::Users.bit(), 2);
    assert_eq!(Permission::Metrics.bit(), 4);
    assert_eq!(Permission::Cloud.bit(), 8);
    assert_eq!(Permission::Portainer.bit(), 16);
    assert_eq!(Permission::Database.bit(), 32);
    assert_eq!(Permission::CloudManage.bit(), 64);
}

#[test]
fn mask_opens_the_named_areas() {
    let ctx = RequestContext::new("u".to_string(), 8 | 4);
    assert!(ctx.has_permissions(8));
    assert!(ctx.has_permissions(4));
    assert!(ctx.has_permissions(12));
    assert!(!ctx.has_permissions(64));
    assert!(!ctx.has_permissions(8 | 64));
    assert!(!ctx.is_admin());
    assert_eq!(ctx.user_id, "u");
    assert_eq!(ctx.permission_mask, 12);
}

#[test]
fn admin_bit_opens_everything() {
    let ctx = RequestContext::new("root".to_string(), 1);
    assert!(ctx.is_admin());
    assert!(ctx.has_permissions(8));
    assert!(ctx.has_permissions(64));
    let both = RequestContext::new("root".to_string(), 3);
    assert!(both.is_admin());
    let none = RequestContext::new("n".to_string(), 0);
    assert!(!none.is_admin());
    assert!(!none.has_permissions(8));
    assert!(none.has_permissions(0));
}
