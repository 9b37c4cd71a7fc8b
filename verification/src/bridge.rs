use vstd::prelude::*;

use crate::text::{chars_of, concat};
use crate::vdf::views;

verus! {

/// Why a Steam operation failed.
#[derive(Debug)]
pub enum BridgeError {
    /// AppID 0 names no app.
    InvalidAppId,
    /// Steamworks could not be initialised; the text describes Steam's error.
    InitFailed(String),
    /// Steam gave no achievement names for the app.
    NamesUnavailable,
    /// Steam refused to unlock the named achievement.
    UnlockFailed(String),
    /// Steam refused to lock the named achievement.
    LockFailed(String),
    /// Steam refused to change the named achievement in a bulk change.
    UpdateFailed(String),
    /// Steam could not store the changed stats.
    StoreFailed,
}

/// The message shown for an error.
pub open spec fn error_message(e: BridgeError) -> Seq<char> {
    match e {
        BridgeError::InvalidAppId => "AppID 0 is not valid."@,
        BridgeError::InitFailed(d) => "Steam init failed: "@ + d@
            + ". Start Steam, log in, and check that the AppID is available."@,
        BridgeError::NamesUnavailable => "Could not load achievement names for this AppID."@,
        BridgeError::UnlockFailed(n) => "Could not unlock achievement: "@ + n@,
        BridgeError::LockFailed(n) => "Could not lock achievement: "@ + n@,
        BridgeError::UpdateFailed(n) => "Could not update achievement: "@ + n@,
        BridgeError::StoreFailed => "Steam StoreStats failed."@,
    }
}

impl BridgeError {
    /// The message shown for the error.
    pub fn message(&self) -> (r: String)
        ensures
            r@ == error_message(*self),
    {
        match self {
            BridgeError::InvalidAppId => "AppID 0 is not valid.".to_owned(),
            BridgeError::InitFailed(d) => {
                let head = concat("Steam init failed: ", d.as_str());
                concat(
                    head.as_str(),
                    ". Start Steam, log in, and check that the AppID is available.",
                )
            },
            BridgeError::NamesUnavailable => "Could not load achievement names for this AppID.".to_owned(),
            BridgeError::UnlockFailed(n) => concat("Could not unlock achievement: ", n.as_str()),
            BridgeError::LockFailed(n) => concat("Could not lock achievement: ", n.as_str()),
            BridgeError::UpdateFailed(n) => concat("Could not update achievement: ", n.as_str()),
            BridgeError::StoreFailed => "Steam StoreStats failed.".to_owned(),
        }
    }
}

/// Validates an AppID before Steam is asked: AppID 0 names no app.
pub fn validate_app_id(app_id: u32) -> (r: Result<(), BridgeError>)
    ensures
        app_id == 0 <==> r matches Err(BridgeError::InvalidAppId),
        r is Ok <==> app_id != 0,
{
    if app_id == 0 {
        Err(BridgeError::InvalidAppId)
    } else {
        Ok(())
    }
}

/// The string holds no NUL character (Steamworks passes names to C and
/// panics on such a character).
pub open spec fn no_nul(s: Seq<char>) -> bool {
    !s.contains('\0')
}

/// Whether `s` holds no NUL character.
pub fn has_no_nul(s: &str) -> (b: bool)
    ensures
        b == no_nul(s@),
{
    let v = chars_of(s);
    let mut i: usize = 0;
    while i < v.len()
        invariant
            0 <= i <= v@.len(),
            v@ == s@,
            forall|k: int| 0 <= k < i ==> v@[k] != '\0',
        decreases v@.len() - i,
    {
        if v[i] == '\0' {
            assert(s@.contains(v@[i as int]));
            return false;
        }
        i = i + 1;
    }
    true
}

/// The state of an achievement from Steam's two answers: the state with
/// unlock time where Steam gave it, else the plain state with time zero,
/// else nothing. The plain answer is asked for only where the first failed.
pub fn unlock_state(with_time: Result<(bool, u32), ()>, plain: Result<bool, ()>) -> (r: Option<(bool, u32)>)
    ensures
        with_time matches Ok(st) ==> r == Some(st),
        with_time is Err ==> (plain matches Ok(v) ==> r == Some((v, 0u32))),
        with_time is Err ==> (plain is Err ==> r is None),
{
    match with_time {
        Ok(st) => Some(st),
        Err(()) => match plain {
            Ok(v) => Some((v, 0u32)),
            Err(()) => None,
        },
    }
}

/// The error of a single change that Steam refused: the achievement's name
/// under the change that was asked for.
pub fn change_error(unlocked: bool, api_name: &str) -> (e: BridgeError)
    ensures
        unlocked ==> (e matches BridgeError::UnlockFailed(n) && n@ == api_name@),
        !unlocked ==> (e matches BridgeError::LockFailed(n) && n@ == api_name@),
{
    if unlocked {
        BridgeError::UnlockFailed(api_name.to_owned())
    } else {
        BridgeError::LockFailed(api_name.to_owned())
    }
}

/// A change of several achievements at once: each named achievement is
/// changed in turn, the change stops at the first that Steam refuses, and
/// the stats are stored once where anything was changed.
pub struct BulkChange {
    names: Vec<String>,
    unlocked: bool,
    changed: usize,
    failed: bool,
}

impl BulkChange {
    /// The names to change, in order.
    pub closed spec fn names(&self) -> Seq<Seq<char>> {
        views(self.names@)
    }

    /// Whether the change unlocks (or locks) the achievements.
    pub closed spec fn unlocks(&self) -> bool {
        self.unlocked
    }

    /// How many of the names were changed so far.
    pub closed spec fn changed(&self) -> nat {
        self.changed as nat
    }

    /// Whether Steam refused the name after the changed ones.
    pub closed spec fn failed(&self) -> bool {
        self.failed
    }

    /// The well-formedness of the state: the count stays within the names,
    /// and a refusal is of a name that is there.
    pub closed spec fn wf(&self) -> bool {
        self.changed <= self.names@.len() && (self.failed ==> self.changed < self.names@.len())
    }

    /// Starts a change of the named achievements.
    pub fn new(names: Vec<String>, unlocked: bool) -> (r: BulkChange)
        ensures
            r.wf(),
            r.names() == views(names@),
            r.unlocks() == unlocked,
            r.changed() == 0,
            !r.failed(),
    {
        BulkChange { names, unlocked, changed: 0, failed: false }
    }

    /// The name to change next: the one after the changed names, while no
    /// name was refused and names are left.
    pub fn next_name(&self) -> (r: Option<&String>)
        requires
            self.wf(),
        ensures
            (r is Some) == (!self.failed() && self.changed() < self.names().len()),
            r matches Some(n) ==> n@ == self.names()[self.changed() as int],
    {
        if !self.failed && self.changed < self.names.len() {
            Some(&self.names[self.changed])
        } else {
            None
        }
    }

    /// Takes Steam's answer for the name that `next_name` gave.
    pub fn record(&mut self, ok: bool)
        requires
            old(self).wf(),
            !old(self).failed(),
            old(self).changed() < old(self).names().len(),
        ensures
            final(self).wf(),
            final(self).names() == old(self).names(),
            final(self).unlocks() == old(self).unlocks(),
            ok ==> final(self).changed() == old(self).changed() + 1 && !final(self).failed(),
            !ok ==> final(self).changed() == old(self).changed() && final(self).failed(),
    {
        let total = self.names.len();
        assert(self.names().len() == total);
        if ok {
            self.changed = self.changed + 1;
        } else {
            self.failed = true;
        }
    }

    /// Whether the stats are to be stored now: every name was changed and
    /// there was at least one.
    pub fn needs_store(&self) -> (b: bool)
        requires
            self.wf(),
        ensures
            b == (!self.failed() && self.changed() == self.names().len() && self.changed() > 0),
    {
        !self.failed && self.changed == self.names.len() && self.changed > 0
    }

    /// The outcome once no name is left to change: the refused name's error,
    /// or the error of a failed store (`stored` is Steam's answer to the
    /// store, where one was made), or the number of changed achievements.
    pub fn outcome(&self, stored: bool) -> (r: Result<usize, BridgeError>)
        requires
            self.wf(),
            self.failed() || self.changed() == self.names().len(),
        ensures
            self.failed() ==> (r matches Err(BridgeError::UpdateFailed(n)) && n@ == self.names()[self.changed() as int]),
            !self.failed() && self.changed() > 0 && !stored ==> r matches Err(BridgeError::StoreFailed),
            !self.failed() && (self.changed() == 0 || stored) ==> r == Ok::<usize, BridgeError>(self.changed() as usize),
    {
        if self.failed {
            return Err(BridgeError::UpdateFailed(self.names[self.changed].clone()));
        }
        if self.changed > 0 && !stored {
            return Err(BridgeError::StoreFailed);
        }
        Ok(self.changed)
    }
}

/// What the Steam callbacks of a session have reported.
#[derive(Debug)]
pub struct CallbackState {
    /// Whether the stats callback has come.
    pub stats_received: bool,
    /// Whether it reported success.
    pub stats_ok: bool,
    /// Whether the last store of stats succeeded, once one was reported.
    pub last_store_ok: Option<bool>,
    /// The message of the last callback.
    pub last_callback_message: String,
}

impl Clone for CallbackState {
    fn clone(&self) -> (r: Self)
        ensures
            r == *self,
    {
        CallbackState {
            stats_received: self.stats_received,
            stats_ok: self.stats_ok,
            last_store_ok: self.last_store_ok,
            last_callback_message: self.last_callback_message.clone(),
        }
    }
}

impl Default for CallbackState {
    fn default() -> (r: Self)
        ensures
            !r.stats_received,
            !r.stats_ok,
            r.last_store_ok is None,
            r.last_callback_message@ == Seq::<char>::empty(),
    {
        CallbackState {
            stats_received: false,
            stats_ok: false,
            last_store_ok: None,
            last_callback_message: String::new(),
        }
    }
}

impl CallbackState {
    /// Records the stats callback; `detail` is the `Debug` text of its result.
    pub fn record_stats_received(&mut self, ok: bool, detail: &str)
        ensures
            final(self).stats_received,
            final(self).stats_ok == ok,
            final(self).last_store_ok == old(self).last_store_ok,
            final(self).last_callback_message@ == if ok {
                "Steam stats callback ok."@
            } else {
                "Steam stats callback error: "@ + detail@
            },
    {
        self.stats_received = true;
        self.stats_ok = ok;
        self.last_callback_message = if ok {
            "Steam stats callback ok.".to_owned()
        } else {
            concat("Steam stats callback error: ", detail)
        };
    }

    /// Records the callback of a store of stats; `detail` is the `Debug` text
    /// of its result.
    pub fn record_stats_stored(&mut self, ok: bool, detail: &str)
        ensures
            final(self).stats_received == old(self).stats_received,
            final(self).stats_ok == old(self).stats_ok,
            final(self).last_store_ok == Some(ok),
            final(self).last_callback_message@ == if ok {
                "StoreStats ok."@
            } else {
                "StoreStats error: "@ + detail@
            },
    {
        self.last_store_ok = Some(ok);
        self.last_callback_message = if ok {
            "StoreStats ok.".to_owned()
        } else {
            concat("StoreStats error: ", detail)
        };
    }
}

} // verus!
