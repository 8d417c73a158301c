use vstd::prelude::*;

verus! {

/// The role of a user of the control service.
#[derive(Clone, Copy, Debug, PartialEq, Eq, Structural)]
pub enum UserKind {
    Admin,
    User,
    Guest,
}

/// A user record served by the control service.
#[derive(Clone, Debug)]
pub struct User {
    pub id: i32,
    pub kind: UserKind,
    pub name: String,
}

impl User {
    pub fn id(&self) -> (r: i32)
        ensures
            r == self.id,
    {
        self.id
    }

    pub fn kind(&self) -> (r: UserKind)
        ensures
            r == self.kind,
    {
        self.kind
    }

    pub fn name(&self) -> (r: &str)
        ensures
            r@ == self.name@,
    {
        self.name.as_str()
    }

    /// The user's friends: none are recorded.
    pub fn friends(&self) -> (r: Vec<User>)
        ensures
            r@.len() == 0,
    {
        Vec::new()
    }
}

/// The root of the service's queries.
#[derive(Clone, Copy, Debug)]
pub struct Query;

impl Query {
    /// The known users: `user1`, an admin, and `user2`, a guest, both with id 1.
    pub fn users() -> (r: Vec<User>)
        ensures
            r@.len() == 2,
            r@[0].id == 1,
            r@[0].kind == UserKind::Admin,
            r@[0].name@ == "user1"@,
            r@[1].id == 1,
            r@[1].kind == UserKind::Guest,
            r@[1].name@ == "user2"@,
    {
        let mut r: Vec<User> = Vec::new();
        r.push(User { id: 1, kind: UserKind::Admin, name: "user1".to_owned() });
        r.push(User { id: 1, kind: UserKind::Guest, name: "user2".to_owned() });
        r
    }
}

} // verus!
