use vstd::prelude::*;

verus! {

/// How a profile is addressed: by its numeric friend code or by the name its
/// owner chose.
pub enum Account {
    FriendCode(String),
    ProfileName(String),
}

impl Account {
    /// The profile page address of this account.
    pub open spec fn link_view(&self) -> Seq<char> {
        match self {
            Account::FriendCode(id) => "https://steamcommunity.com/profiles/"@ + id@,
            Account::ProfileName(name) => "https://steamcommunity.com/id/"@ + name@,
        }
    }

    /// The profile page address of this account.
    pub fn get_link(&self) -> (r: String)
        ensures
            r@ == self.link_view(),
    {
        match self {
            Account::FriendCode(id) => {
                String::from_str("https://steamcommunity.com/profiles/").concat(id.as_str())
            },
            Account::ProfileName(profile_name) => {
                String::from_str("https://steamcommunity.com/id/").concat(profile_name.as_str())
            },
        }
    }
}

} // verus!
