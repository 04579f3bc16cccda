//! The user-facing operations: adding a site from raw input and duration
//! text, and the save-and-sync sequence behind every mutation, gated on a
//! privilege verdict.
//!
//! Callers hand in the current hosts-file text, the current time in
//! seconds, and the privilege gate's verdict; they get back the text to
//! persist for the store and the new hosts-file text.  A denied verdict
//! refuses the operation and leaves the store untouched, so a caller that
//! writes nothing on refusal also leaves the hosts file unchanged.
use vstd::prelude::*;
use vstd::string::*;
use crate::codec::serialize_spec;
use crate::domain::{is_plain_domain, validate_spec, validate_url};
use crate::hosts::synced_lines;
use crate::store::{keep_timed, ne_dom, ne_str, BlockedSites};
use crate::strutil::{
    join_lines_spec, parse_dec_spec, parse_u64, split_lines_spec, trim_spec, trim_str,
};
use crate::{SyncError, ValidationError};

verus! {

/// The length in seconds of one duration unit, by its letter.
pub open spec fn unit_secs(c: char) -> Option<u64> {
    if c == 's' || c == 'S' {
        Some(1)
    } else if c == 'm' || c == 'M' {
        Some(60)
    } else if c == 'h' || c == 'H' {
        Some(3600)
    } else if c == 'd' || c == 'D' {
        Some(86400)
    } else {
        None
    }
}

/// Multiplication capped at the largest `u64`.
pub open spec fn sat_mul(a: u64, b: u64) -> u64 {
    if a * b > u64::MAX {
        u64::MAX
    } else {
        (a * b) as u64
    }
}

/// Addition capped at the largest `u64`.
pub open spec fn sat_add(a: u64, b: u64) -> u64 {
    if a + b > u64::MAX {
        u64::MAX
    } else {
        (a + b) as u64
    }
}

/// What duration text means: a decimal count followed by one unit letter
/// (seconds, minutes, hours or days), after trimming; anything else
/// means no duration, hence a permanent block.
pub open spec fn duration_secs(s: Seq<char>) -> Option<u64> {
    let t = trim_spec(s);
    if t.len() < 2 {
        None
    } else {
        match unit_secs(t.last()) {
            None => None,
            Some(u) => match parse_dec_spec(t.drop_last()) {
                None => None,
                Some(n) => Some(sat_mul(n, u)),
            },
        }
    }
}

/// The length in seconds of one duration unit, by its letter.
fn unit_secs_exec(c: char) -> (r: Option<u64>)
    ensures
        r == unit_secs(c),
{
    if c == 's' || c == 'S' {
        Some(1)
    } else if c == 'm' || c == 'M' {
        Some(60)
    } else if c == 'h' || c == 'H' {
        Some(3600)
    } else if c == 'd' || c == 'D' {
        Some(86400)
    } else {
        None
    }
}

/// Parse duration text into seconds; `None` means "block permanently".
pub fn parse_duration(s: &str) -> (r: Option<u64>)
    ensures
        r == duration_secs(s@),
{
    let t = trim_str(s);
    let ts = t.as_str();
    let len = ts.unicode_len();
    if len < 2 {
        return None;
    }
    let unit = match unit_secs_exec(ts.get_char(len - 1)) {
        None => {
            return None;
        },
        Some(u) => u,
    };
    let digits = ts.substring_char(0, len - 1);
    proof {
        assert(digits@ =~= t@.drop_last());
    }
    match parse_u64(digits) {
        None => None,
        Some(n) => match n.checked_mul(unit) {
            Some(v) => Some(v),
            None => Some(u64::MAX),
        },
    }
}

impl BlockedSites {
    /// Add a site from raw user input and duration text: validate the
    /// input, and block the domain permanently when the duration text
    /// names no duration, or until `now` plus the duration otherwise.
    /// Validation failure reports the error and changes nothing.
    pub fn add_site(&mut self, raw: &str, duration_text: &str, now: u64) -> (r: Result<
        String,
        ValidationError,
    >)
        requires
            old(self).wf(),
        ensures
            final (self).wf(),
            final (self).is_blocking_enabled == old(self).is_blocking_enabled,
            match r {
                Err(e) => validate_spec(raw@) == Err::<Seq<char>, ValidationError>(e) && final (
                self).same_state(*old(self)),
                Ok(d) => {
                    &&& validate_spec(raw@) == Ok::<Seq<char>, ValidationError>(d@)
                    &&& is_plain_domain(d@)
                    &&& match duration_secs(duration_text@) {
                        None => final (self).perm() == (if old(self).has_perm(d@) {
                            old(self).perm()
                        } else {
                            old(self).perm().push(d@)
                        }) && final (self).timed() == old(self).timed().filter(ne_dom(d@)),
                        Some(dur) => final (self).perm() == old(self).perm().filter(ne_str(d@))
                            && final (self).timed() == old(self).timed().filter(ne_dom(d@)).push(
                            (d@, Some(sat_add(now, dur))),
                        ),
                    }
                },
            },
    {
        match validate_url(raw) {
            Err(e) => Err(e),
            Ok(d) => {
                match parse_duration(duration_text) {
                    None => {
                        self.add_permanent(d.as_str());
                    },
                    Some(dur) => {
                        let expiry = match now.checked_add(dur) {
                            Some(v) => v,
                            None => u64::MAX,
                        };
                        self.add_timed(d.as_str(), Some(expiry));
                    },
                }
                Ok(d)
            },
        }
    }

    /// Persist and synchronize after a mutation: refuse outright when the
    /// privilege verdict is denied, leaving the store untouched; else
    /// sweep expired entries and return the store's persisted text and
    /// the new hosts-file text.  The persisted text records the swept
    /// state, so what is saved is exactly what the caller holds.
    pub fn save_and_update_hosts(&mut self, hosts_content: &str, now: u64, allowed: bool) -> (r:
        Result<(String, String), SyncError>)
        requires
            old(self).wf(),
        ensures
            final (self).wf(),
            match r {
                Err(e) => e == SyncError::PermissionDenied && !allowed && final (self).same_state(
                    *old(self),
                ),
                Ok(out) => {
                    &&& allowed
                    &&& final (self).perm() == old(self).perm()
                    &&& final (self).is_blocking_enabled == old(self).is_blocking_enabled
                    &&& final (self).timed() == old(self).timed().filter(keep_timed(now))
                    &&& out.0@ == serialize_spec(*final (self))
                    &&& out.1@ == join_lines_spec(
                        synced_lines(*final (self), split_lines_spec(hosts_content@)),
                    )
                },
            },
    {
        if !allowed {
            return Err(SyncError::PermissionDenied);
        }
        let new_hosts = self.update_hosts_content(hosts_content, now);
        let ser = self.serialize_blocked_sites();
        Ok((ser, new_hosts))
    }

    /// Flip the blocking switch and synchronize.  Refused with a denied
    /// privilege verdict, leaving the store untouched; on success the
    /// hosts text is cleaned and, when the switch turned on, repopulated.
    pub fn toggle_blocking(&mut self, hosts_content: &str, now: u64, allowed: bool) -> (r: Result<
        (String, String),
        SyncError,
    >)
        requires
            old(self).wf(),
        ensures
            final (self).wf(),
            match r {
                Err(e) => e == SyncError::PermissionDenied && !allowed && final (self).same_state(
                    *old(self),
                ),
                Ok(out) => {
                    &&& allowed
                    &&& final (self).is_blocking_enabled == !old(self).is_blocking_enabled
                    &&& final (self).perm() == old(self).perm()
                    &&& final (self).timed() == old(self).timed().filter(keep_timed(now))
                    &&& out.0@ == serialize_spec(*final (self))
                    &&& out.1@ == join_lines_spec(
                        synced_lines(*final (self), split_lines_spec(hosts_content@)),
                    )
                },
            },
    {
        if !allowed {
            return Err(SyncError::PermissionDenied);
        }
        self.toggle_enabled();
        self.save_and_update_hosts(hosts_content, now, true)
    }
}

/// The application core a presentation layer drives: it owns the
/// blocklist store and exposes the operations on it.
pub struct WebBlocker {
    pub blocked_sites: BlockedSites,
}

impl WebBlocker {
    /// The alias host names blocked together with `domain`, sorted.
    pub fn get_domain_variants(domain: &str) -> (r: Vec<String>)
        ensures
            r@.len() == 4,
            crate::domain::sorted_lex(crate::strutil::views_of(r@)),
            forall|x: Seq<char>|
                crate::strutil::views_of(r@).contains(x) <==> crate::domain::variant_seqs(
                    domain@,
                ).contains(x),
    {
        crate::domain::get_domain_variants(domain)
    }

    /// Drop every timed entry whose expiry has passed by `now`.
    pub fn clean_expired_sites(&mut self, now: u64)
        requires
            old(self).blocked_sites.wf(),
        ensures
            final (self).blocked_sites.wf(),
            final (self).blocked_sites.perm() == old(self).blocked_sites.perm(),
            final (self).blocked_sites.is_blocking_enabled == old(
                self,
            ).blocked_sites.is_blocking_enabled,
            final (self).blocked_sites.timed() == old(self).blocked_sites.timed().filter(
                keep_timed(now),
            ),
    {
        self.blocked_sites.clean_expired_sites(now);
    }

    /// Persist and synchronize; see the store-level operation.
    pub fn save_and_update_hosts(&mut self, hosts_content: &str, now: u64, allowed: bool) -> (r:
        Result<(String, String), SyncError>)
        requires
            old(self).blocked_sites.wf(),
        ensures
            final (self).blocked_sites.wf(),
            match r {
                Err(e) => e == SyncError::PermissionDenied && !allowed && final (
                self).blocked_sites.same_state(old(self).blocked_sites),
                Ok(out) => {
                    &&& allowed
                    &&& final (self).blocked_sites.perm() == old(self).blocked_sites.perm()
                    &&& final (self).blocked_sites.is_blocking_enabled == old(
                        self,
                    ).blocked_sites.is_blocking_enabled
                    &&& final (self).blocked_sites.timed() == old(self).blocked_sites.timed(
                    ).filter(keep_timed(now))
                    &&& out.0@ == serialize_spec(final (self).blocked_sites)
                    &&& out.1@ == join_lines_spec(
                        synced_lines(
                            final (self).blocked_sites,
                            split_lines_spec(hosts_content@),
                        ),
                    )
                },
            },
    {
        self.blocked_sites.save_and_update_hosts(hosts_content, now, allowed)
    }

    /// Flip the blocking switch and synchronize; see the store-level
    /// operation.
    pub fn toggle_blocking(&mut self, hosts_content: &str, now: u64, allowed: bool) -> (r: Result<
        (String, String),
        SyncError,
    >)
        requires
            old(self).blocked_sites.wf(),
        ensures
            final (self).blocked_sites.wf(),
            match r {
                Err(e) => e == SyncError::PermissionDenied && !allowed && final (
                self).blocked_sites.same_state(old(self).blocked_sites),
                Ok(out) => {
                    &&& allowed
                    &&& final (self).blocked_sites.is_blocking_enabled == !old(
                        self,
                    ).blocked_sites.is_blocking_enabled
                    &&& final (self).blocked_sites.perm() == old(self).blocked_sites.perm()
                    &&& final (self).blocked_sites.timed() == old(self).blocked_sites.timed(
                    ).filter(keep_timed(now))
                    &&& out.0@ == serialize_spec(final (self).blocked_sites)
                    &&& out.1@ == join_lines_spec(
                        synced_lines(
                            final (self).blocked_sites,
                            split_lines_spec(hosts_content@),
                        ),
                    )
                },
            },
    {
        self.blocked_sites.toggle_blocking(hosts_content, now, allowed)
    }
}

impl Default for WebBlocker {
    /// A core holding the empty, disabled store.
    fn default() -> (r: Self)
        ensures
            r.blocked_sites.wf(),
            r.blocked_sites.perm() == Seq::<Seq<char>>::empty(),
            r.blocked_sites.timed() == Seq::<(Seq<char>, Option<u64>)>::empty(),
            !r.blocked_sites.is_blocking_enabled,
    {
        WebBlocker { blocked_sites: BlockedSites::default() }
    }
}

} // verus!
