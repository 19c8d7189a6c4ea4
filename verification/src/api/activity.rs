//! The kinds of user activity the service records.
use vstd::prelude::*;

verus! {

/// One kind of recorded user action.
#[derive(Debug, Clone, Copy, PartialEq, Eq, Structural)]
pub enum ActivityType {
    Search,
    ViewWord,
    AddFavorite,
    RemoveFavorite,
    Login,
    Logout,
    Register,
}

impl ActivityType {
    /// The tag this activity kind is stored under.
    pub fn as_str(&self) -> (r: &'static str)
        ensures
            r@ == match *self {
                ActivityType::Search => "search"@,
                ActivityType::ViewWord => "view_word"@,
                ActivityType::AddFavorite => "add_favorite"@,
                ActivityType::RemoveFavorite => "remove_favorite"@,
                ActivityType::Login => "login"@,
                ActivityType::Logout => "logout"@,
                ActivityType::Register => "register"@,
            },
    {
        match self {
            ActivityType::Search => "search",
            ActivityType::ViewWord => "view_word",
            ActivityType::AddFavorite => "add_favorite",
            ActivityType::RemoveFavorite => "remove_favorite",
            ActivityType::Login => "login",
            ActivityType::Logout => "logout",
            ActivityType::Register => "register",
        }
    }
}

/// Paging parameters of the activity listing.
#[derive(Debug, Clone, Copy)]
pub struct ActivityQueryParams {
    pub limit: i64,
    pub offset: i64,
}

/// How many activities a listing returns when no limit is given.
pub fn default_limit() -> (r: i64)
    ensures
        r == 50,
{
    50
}

/// Where a listing starts when no offset is given.
pub fn default_offset() -> (r: i64)
    ensures
        r == 0,
{
    0
}

} // verus!
