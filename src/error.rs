use vstd::prelude::*;

verus! {

/// The library's error: a fixed message describing what went wrong.
#[derive(Debug)]
pub struct SteamError {
    msg: &'static str,
}

impl SteamError {
    pub closed spec fn message_view(&self) -> Seq<char> {
        self.msg@
    }

    pub fn new(msg: &'static str) -> (r: Self)
        ensures
            r.message_view() == msg@,
    {
        SteamError { msg: msg }
    }

    pub fn boxed_new(msg: &'static str) -> (r: Box<Self>)
        ensures
            r.message_view() == msg@,
    {
        Box::new(Self::new(msg))
    }

    /// The message, as `Display` would print it.
    pub fn message(&self) -> (r: &'static str)
        ensures
            r@ == self.message_view(),
    {
        self.msg
    }
}

} // verus!
