//! Naming for the Apple OS keyring integration.
//!
//! The calls into the OS credential store are the caller's; this module
//! holds the account-name convention they share.

use vstd::prelude::*;
use vstd::string::*;

verus! {

/// What identifies one stored secret: whose it is, what it is for, and
/// which application owns it.
pub struct Identifier<'a> {
    pub id: &'a str,
    pub usage: &'a str,
    pub application: &'a str,
}

impl<'a> Identifier<'a> {
    /// The account name used in the Apple keyring: the id and the
    /// usage, joined by " - ".
    pub fn to_apple_account(self) -> (r: String)
        ensures
            r@ == self.id@ + " - "@ + self.usage@,
    {
        let mut s = String::from_str(self.id);
        s.append(" - ");
        s.append(self.usage);
        s
    }
}

/// The Apple OS keyring.  Creating the handle never fails; the store
/// itself is reached through the OS by the caller.
pub struct AppleKeyring;

impl AppleKeyring {
    /// A handle on the Apple keyring.
    pub fn new() -> AppleKeyring {
        AppleKeyring {  }
    }
}

} // verus!
