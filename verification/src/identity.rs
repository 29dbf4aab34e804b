//! Who makes a request: the caller's identifier and the coarse mask of
//! feature areas that the caller may use.

use vstd::prelude::*;

verus! {

/// The bit of the mask that marks an administrator.
pub const ADMIN_BIT: i32 = 1;

/// A feature area that the permission mask can open to a caller.
#[derive(Clone, Copy, Debug, PartialEq, Eq, Structural)]
pub enum Permission {
    Admin,
    Users,
    Metrics,
    Cloud,
    Portainer,
    Database,
    CloudManage,
}

impl Permission {
    /// The bit of the mask that stands for this feature area.
    pub open spec fn spec_bit(self) -> i32 {
        match self {
            Permission::Admin => 1,
            Permission::Users => 2,
            Permission::Metrics => 4,
            Permission::Cloud => 8,
            Permission::Portainer => 16,
            Permission::Database => 32,
            Permission::CloudManage => 64,
        }
    }

    /// The bit of the mask that stands for this feature area.
    #[verifier::when_used_as_spec(spec_bit)]
    pub fn bit(self) -> (b: i32)
        ensures
            b == self.spec_bit(),
    {
        match self {
            Permission::Admin => 1,
            Permission::Users => 2,
            Permission::Metrics => 4,
            Permission::Cloud => 8,
            Permission::Portainer => 16,
            Permission::Database => 32,
            Permission::CloudManage => 64,
        }
    }
}

/// The mask marks an administrator.
pub open spec fn mask_is_admin(mask: i32) -> bool {
    mask & ADMIN_BIT == ADMIN_BIT
}

/// The mask holds every bit of `required`, or marks an administrator.
pub open spec fn mask_allows(mask: i32, required: i32) -> bool {
    mask & required == required || mask_is_admin(mask)
}

/// The identity that comes with a request: the caller's identifier and
/// permission mask, as established before the request reaches the store.
/// The store takes both as they stand.
#[derive(Clone, Debug, PartialEq, Eq)]
pub struct RequestContext {
    pub user_id: String,
    pub permission_mask: i32,
}

/// The model of a `RequestContext`.
pub struct ContextView {
    pub user: Seq<char>,
    pub mask: i32,
}

impl View for RequestContext {
    type V = ContextView;

    open spec fn view(&self) -> ContextView {
        ContextView { user: self.user_id@, mask: self.permission_mask }
    }
}

impl RequestContext {
    /// A context for the caller `user_id` with the mask `permission_mask`.
    pub fn new(user_id: String, permission_mask: i32) -> (ctx: RequestContext)
        ensures
            ctx@ == (ContextView { user: user_id@, mask: permission_mask }),
    {
        RequestContext { user_id, permission_mask }
    }

    /// Whether the caller is an administrator.
    pub fn is_admin(&self) -> (r: bool)
        ensures
            r == mask_is_admin(self@.mask),
    {
        self.permission_mask & ADMIN_BIT == ADMIN_BIT
    }

    /// Whether the caller may use every feature area whose bit is set in
    /// `required`. An administrator may use them all.
    pub fn has_permissions(&self, required: i32) -> (r: bool)
        ensures
            r == mask_allows(self@.mask, required),
    {
        self.permission_mask & required == required || self.is_admin()
    }
}

} // verus!
