//! A copy-on-write string: either a borrowed reference or owned data,
//! cloned into owned form only when mutation is asked for.

use vstd::prelude::*;

verus! {

/// Either a borrowed string or an owned one.
pub enum CopyOnWrite<'a> {
    /// A reference to data owned elsewhere.
    Borrowed(&'a String),
    /// Uniquely owned data.
    Owned(String),
}

impl<'a> CopyOnWrite<'a> {
    /// The characters this value denotes, whoever owns them.
    pub open spec fn content(self) -> Seq<char> {
        match self {
            CopyOnWrite::Borrowed(b) => b@,
            CopyOnWrite::Owned(o) => o@,
        }
    }

    /// Turns the value into owned data, cloning only if it was borrowed,
    /// and hands out the owned string for mutation.
    pub fn to_mut(&mut self) -> (res: &mut String)
        ensures
            (*res)@ == old(self).content(),
            *final(self) == CopyOnWrite::Owned(*final(res)),
    {
        match self {
            CopyOnWrite::Borrowed(borrowed) => {
                let owned: String = (*borrowed).clone();
                *self = CopyOnWrite::Owned(owned);
                match self {
                    CopyOnWrite::Owned(o) => o,
                    CopyOnWrite::Borrowed(_) => vstd::pervasive::unreached(),
                }
            },
            CopyOnWrite::Owned(o) => o,
        }
    }

    /// Extracts owned data, cloning only if it was borrowed.
    pub fn into_owned(self) -> (res: String)
        ensures
            res@ == self.content(),
    {
        match self {
            CopyOnWrite::Borrowed(borrowed) => borrowed.clone(),
            CopyOnWrite::Owned(owned) => owned,
        }
    }
}

impl<'a> Clone for CopyOnWrite<'a> {
    /// A borrowed value clones to the same borrow; an owned value clones
    /// its data.
    fn clone(&self) -> (res: Self)
        ensures
            res.content() == self.content(),
            (self is Borrowed <==> res is Borrowed),
    {
        match self {
            CopyOnWrite::Borrowed(b) => CopyOnWrite::Borrowed(b),
            CopyOnWrite::Owned(o) => CopyOnWrite::Owned(o.clone()),
        }
    }
}

} // verus!
