use vstd::prelude::*;
use vstd::string::*;

verus! {

/// The coarse capabilities of a user, checked by the shell.
#[derive(Debug, Clone, Copy, PartialEq, Eq, Structural)]
pub struct Permissions {
    pub can_read: bool,
    pub can_write: bool,
    pub can_execute: bool,
}

/// A user known to the shell.
#[derive(Debug)]
pub struct User {
    username: String,
    pub permissions: Permissions,
}

/// What a `User` stands for in contracts.
pub struct UserView {
    pub name: Seq<char>,
    pub permissions: Permissions,
}

/// The name of the administrator, who passes every ownership check.
pub open spec fn admin_name() -> Seq<char> {
    seq!['r', 'o', 'o', 't']
}

/// The literal that the code compares with is the name of the administrator.
pub proof fn lemma_admin_literal()
    ensures
        "root"@ == admin_name(),
{
    reveal_strlit("root");
    assert("root"@ =~= admin_name());
}

impl View for User {
    type V = UserView;

    closed spec fn view(&self) -> UserView {
        UserView { name: self.username@, permissions: self.permissions }
    }
}

impl Clone for User {
    fn clone(&self) -> (copy: User)
        ensures
            copy@ == self@,
    {
        User { username: self.username.clone(), permissions: self.permissions }
    }
}

impl Default for User {
    /// The administrator, with every capability.
    fn default() -> (user: User)
        ensures
            user@ == (UserView {
                name: admin_name(),
                permissions: Permissions { can_read: true, can_write: true, can_execute: true },
            }),
    {
        proof {
            lemma_admin_literal();
        }
        User::new("root", true, true, true)
    }
}

impl User {
    /// A user with the given name and capabilities.
    pub fn new(username: &str, can_read: bool, can_write: bool, can_execute: bool) -> (user: User)
        ensures
            user@ == (UserView {
                name: username@,
                permissions: Permissions { can_read, can_write, can_execute },
            }),
    {
        User {
            username: String::from_str(username),
            permissions: Permissions { can_read, can_write, can_execute },
        }
    }

    /// The name of the user.
    pub fn get_user_name(&self) -> (name: String)
        ensures
            name@ == self@.name,
    {
        self.username.clone()
    }

    /// The capabilities of the user.
    pub fn permissions(&self) -> (permissions: Permissions)
        ensures
            permissions == self@.permissions,
    {
        self.permissions
    }

    /// Whether this user is the administrator.
    pub fn is_admin(&self) -> (admin: bool)
        ensures
            admin == (self@.name == admin_name()),
    {
        proof {
            lemma_admin_literal();
        }
        self.username == String::from_str("root")
    }
}

/// The users in the order in which they were added.
#[derive(Debug)]
pub struct Users {
    users: Vec<User>,
}

impl View for Users {
    type V = Seq<UserView>;

    closed spec fn view(&self) -> Seq<UserView> {
        Seq::new(self.users@.len(), |i: int| self.users@[i]@)
    }
}

impl Clone for Users {
    fn clone(&self) -> (copy: Users)
        ensures
            copy@ == self@,
    {
        let mut users: Vec<User> = Vec::new();
        let mut i: usize = 0;
        while i < self.users.len()
            invariant
                i <= self.users@.len(),
                users@.len() == i,
                forall|k: int| 0 <= k < i ==> users@[k]@ == self.users@[k]@,
            decreases self.users@.len() - i,
        {
            users.push(self.users[i].clone());
            i += 1;
        }
        let copy = Users { users };
        assert(copy@ =~= self@);
        copy
    }
}

impl Users {
    /// No users yet.
    pub fn new() -> (users: Users)
        ensures
            users@ == Seq::<UserView>::empty(),
    {
        let users = Users { users: Vec::new() };
        assert(users@ =~= Seq::<UserView>::empty());
        users
    }

    /// Adds `user` after the others.
    pub fn add_user(&mut self, user: User)
        ensures
            final(self)@ == old(self)@.push(user@),
    {
        self.users.push(user);
        assert(self@ =~= old(self)@.push(user@));
    }

    /// The users in the order of their addition.
    pub fn get_users(&self) -> (users: &Vec<User>)
        ensures
            users@.len() == self@.len(),
            forall|i: int| 0 <= i < users@.len() ==> (#[trigger] users@[i])@ == self@[i],
    {
        &self.users
    }
}

} // verus!
