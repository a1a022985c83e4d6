use vstd::prelude::*;

verus! {

/// Which keys open a route.
#[derive(Clone, Copy, Debug, PartialEq, Eq)]
pub enum Authentication {
    Public,
    Private,
    Admin,
}

/// The keys of the instance; without a master key every route is open.
pub struct ApiKeys {
    pub master: Option<String>,
    pub private: Option<String>,
    pub public: Option<String>,
}

/// What to do with a request.
#[derive(Debug)]
pub enum AuthDecision {
    Allow,
    MissingAuthorizationHeader,
    InvalidToken(String),
}

pub open spec fn key_is(k: Option<String>, h: Seq<char>) -> bool {
    match k {
        Some(k) => k@ == h,
        None => false,
    }
}

/// The header opens a route of level `acl`: the master key opens all, the
/// private key opens private and public routes, the public key public ones.
pub open spec fn opens(acl: Authentication, keys: ApiKeys, h: Seq<char>) -> bool {
    match acl {
        Authentication::Admin => key_is(keys.master, h),
        Authentication::Private => key_is(keys.master, h) || key_is(keys.private, h),
        Authentication::Public => key_is(keys.master, h) || key_is(keys.private, h) || key_is(keys.public, h),
    }
}

fn matches_key(k: &Option<String>, h: &String) -> (r: bool)
    ensures
        r == key_is(*k, h@),
{
    match k {
        Some(k) => *k == *h,
        None => false,
    }
}

/// Decides on a request given the key header it carried, if a readable one.
pub fn authorize(acl: Authentication, keys: &ApiKeys, header: Option<&String>) -> (r: AuthDecision)
    ensures
        keys.master is None ==> r is Allow,
        keys.master is Some && header is None ==> r is MissingAuthorizationHeader,
        keys.master is Some && header is Some ==> match r {
            AuthDecision::Allow => opens(acl, *keys, header->0@),
            AuthDecision::InvalidToken(t) => !opens(acl, *keys, header->0@) && t@ == header->0@,
            AuthDecision::MissingAuthorizationHeader => false,
        },
{
    if keys.master.is_none() {
        return AuthDecision::Allow;
    }
    let h = match header {
        Some(h) => h,
        None => return AuthDecision::MissingAuthorizationHeader,
    };
    let authenticated = match acl {
        Authentication::Admin => matches_key(&keys.master, h),
        Authentication::Private => matches_key(&keys.master, h) || matches_key(&keys.private, h),
        Authentication::Public => matches_key(&keys.master, h) || matches_key(&keys.private, h) || matches_key(
            &keys.public,
            h,
        ),
    };
    if authenticated {
        AuthDecision::Allow
    } else {
        AuthDecision::InvalidToken(h.clone())
    }
}

/// A service guarded by an access level.
pub struct LoggingMiddleware<S> {
    pub acl: Authentication,
    pub service: S,
}

impl<S> LoggingMiddleware<S> {
    pub fn new(acl: Authentication, service: S) -> (r: LoggingMiddleware<S>)
        ensures
            r.acl == acl,
            r.service == service,
    {
        LoggingMiddleware { acl, service }
    }

    /// Decides on a request for the guarded service.
    pub fn authorize(&self, keys: &ApiKeys, header: Option<&String>) -> (r: AuthDecision)
        ensures
            keys.master is None ==> r is Allow,
            keys.master is Some && header is None ==> r is MissingAuthorizationHeader,
            keys.master is Some && header is Some ==> match r {
                AuthDecision::Allow => opens(self.acl, *keys, header->0@),
                AuthDecision::InvalidToken(t) => !opens(self.acl, *keys, header->0@) && t@ == header->0@,
                AuthDecision::MissingAuthorizationHeader => false,
            },
    {
        authorize(self.acl, keys, header)
    }
}

} // verus!
