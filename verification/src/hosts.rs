//! Hosts-file synchronization: cleaning previously written entries,
//! rendering the managed region for the current blocklist, the combined
//! sync step, startup normalization, and the privilege-probe decision.
//!
//! Everything here computes on file contents handed in as plain strings;
//! reading and writing the file itself is the caller's concern.
use vstd::prelude::*;
use vstd::string::*;
use crate::store::{keep_timed, BlockedSites};
use crate::NormalizeError;
use crate::strutil::{
    find_sub_spec, lemma_find_sub_spec_at, lemma_find_sub_spec_none,
    contains_sub, find_sub, has_sub, join_lines, join_lines_spec,
    split_lines, split_lines_spec, str_eq, trim_spec, trim_str, views_of,
};

verus! {

/// The tag present in both managed-region marker lines.
pub open spec fn marker_tag() -> Seq<char> {
    "# Website Blocker"@
}

/// The line that opens the managed region.
pub open spec fn start_marker() -> Seq<char> {
    "# Website Blocker - Start"@
}

/// The line that closes the managed region.
pub open spec fn end_marker() -> Seq<char> {
    "# Website Blocker - End"@
}

/// The fixed DNS-resolution comment that startup normalization looks for.
pub open spec fn dns_sentinel() -> Seq<char> {
    "# localhost name resolution is handled within DNS itself."@
}

/// The `k`-th alias host name blocked together with `d`.
pub open spec fn variant_of(d: Seq<char>, k: int) -> Seq<char> {
    if k == 0 {
        d
    } else if k == 1 {
        "www."@ + d
    } else if k == 2 {
        "m."@ + d
    } else {
        "app."@ + d
    }
}

/// The IPv4-loopback hosts line for a host name.
pub open spec fn ip4_line(v: Seq<char>) -> Seq<char> {
    "127.0.0.1 "@ + v
}

/// The IPv6-loopback hosts line for a host name.
pub open spec fn ip6_line(v: Seq<char>) -> Seq<char> {
    "::1 "@ + v
}

/// A trimmed line mentions some variant of some domain in `perms`.
pub open spec fn mentions_variant(t: Seq<char>, perms: Seq<Seq<char>>) -> bool {
    exists|i: int, k: int|
        0 <= i < perms.len() && 0 <= k < 4 && has_sub(t, #[trigger] variant_of(perms[i], k))
}

/// A trimmed line survives the clean step: it is non-empty, is not a
/// managed-region line, and mentions no variant of a blocked domain.
pub open spec fn keep_line(t: Seq<char>, perms: Seq<Seq<char>>) -> bool {
    t.len() > 0 && !has_sub(t, marker_tag()) && !mentions_variant(t, perms)
}

/// `keep_line` as a predicate value over a fixed domain list.
pub open spec fn keep_line_p(perms: Seq<Seq<char>>) -> spec_fn(Seq<char>) -> bool {
    |t: Seq<char>| keep_line(t, perms)
}

/// What cleaning leaves of a hosts file: each line trimmed, and every
/// empty line, managed-region line, and line mentioning a variant of a
/// permanently blocked domain dropped.
pub open spec fn clean_spec(lines: Seq<Seq<char>>, perms: Seq<Seq<char>>) -> Seq<Seq<char>> {
    lines.map_values(|l: Seq<char>| trim_spec(l)).filter(keep_line_p(perms))
}

/// The `k`-th alias host name for `d`, as a string.
fn variant_str(d: &str, k: usize) -> (r: String)
    requires
        k < 4,
    ensures
        r@ == variant_of(d@, k as int),
{
    if k == 0 {
        d.to_owned()
    } else if k == 1 {
        "www.".to_owned().concat(d)
    } else if k == 2 {
        "m.".to_owned().concat(d)
    } else {
        "app.".to_owned().concat(d)
    }
}

/// Whether the line `t` mentions some variant of some listed domain.
fn line_mentions(t: &str, perms: &Vec<String>) -> (r: bool)
    ensures
        r == mentions_variant(t@, views_of(perms@)),
{
    let mut i: usize = 0;
    while i < perms.len()
        invariant
            0 <= i <= perms@.len(),
            forall|ii: int, k: int|
                0 <= ii < i && 0 <= k < 4 ==> !has_sub(
                    t@,
                    #[trigger] variant_of(views_of(perms@)[ii], k),
                ),
        decreases perms@.len() - i,
    {
        let mut k: usize = 0;
        while k < 4
            invariant
                0 <= k <= 4,
                0 <= i < perms@.len(),
                forall|kk: int|
                    0 <= kk < k ==> !has_sub(
                        t@,
                        #[trigger] variant_of(views_of(perms@)[i as int], kk),
                    ),
                forall|ii: int, kk: int|
                    0 <= ii < i && 0 <= kk < 4 ==> !has_sub(
                        t@,
                        #[trigger] variant_of(views_of(perms@)[ii], kk),
                    ),
            decreases 4 - k,
        {
            let v = variant_str(perms[i].as_str(), k);
            if contains_sub(t, v.as_str()) {
                proof {
                    assert(views_of(perms@)[i as int] == perms@[i as int]@);
                    assert(has_sub(t@, variant_of(views_of(perms@)[i as int], k as int)));
                }
                return true;
            }
            k = k + 1;
        }
        i = i + 1;
    }
    false
}

/// Clean a hosts file's lines against the permanently blocked domains.
pub fn clean_hosts_lines(lines: &Vec<String>, store: &BlockedSites) -> (r: Vec<String>)
    ensures
        views_of(r@) == clean_spec(views_of(lines@), store.perm()),
{
    let ghost pred = keep_line_p(store.perm());
    let ghost trimmed = views_of(lines@).map_values(|l: Seq<char>| trim_spec(l));
    let mut out: Vec<String> = Vec::new();
    let mut i: usize = 0;
    while i < lines.len()
        invariant
            0 <= i <= lines@.len(),
            pred == keep_line_p(store.perm()),
            trimmed == views_of(lines@).map_values(|l: Seq<char>| trim_spec(l)),
            views_of(out@) == trimmed.take(i as int).filter(pred),
        decreases lines@.len() - i,
    {
        let t = trim_str(lines[i].as_str());
        let tag = "# Website Blocker";
        let keep = t.as_str().unicode_len() > 0 && !contains_sub(t.as_str(), tag)
            && !line_mentions(t.as_str(), &store.permanent_sites);
        proof {
            assert(t@ == trimmed[i as int]);
            assert(keep == pred(trimmed[i as int]));
            crate::strutil::lemma_filter_push(trimmed.take(i as int), pred, trimmed[i as int]);
            assert(trimmed.take(i as int).push(trimmed[i as int]) =~= trimmed.take(i + 1));
        }
        if keep {
            out.push(t);
            proof {
                assert(views_of(out@) =~= trimmed.take(i as int).filter(pred).push(
                    trimmed[i as int],
                ));
            }
        }
        i = i + 1;
    }
    proof {
        assert(trimmed.take(lines@.len() as int) =~= trimmed);
    }
    out
}

/// The eight hosts lines written for one blocked domain: an IPv4 and an
/// IPv6 loopback line for each of its four variants.
pub open spec fn domain_lines(d: Seq<char>) -> Seq<Seq<char>> {
    seq![
        ip4_line(variant_of(d, 0)),
        ip6_line(variant_of(d, 0)),
        ip4_line(variant_of(d, 1)),
        ip6_line(variant_of(d, 1)),
        ip4_line(variant_of(d, 2)),
        ip6_line(variant_of(d, 2)),
        ip4_line(variant_of(d, 3)),
        ip6_line(variant_of(d, 3)),
    ]
}

/// The hosts lines for a list of domains, in order.
pub open spec fn domains_lines(ds: Seq<Seq<char>>) -> Seq<Seq<char>>
    decreases ds.len(),
{
    if ds.len() == 0 {
        Seq::empty()
    } else {
        domain_lines(ds[0]) + domains_lines(ds.drop_first())
    }
}

/// The domains of the timed entries, in order.
pub open spec fn timed_domains(t: Seq<(Seq<char>, Option<u64>)>) -> Seq<Seq<char>> {
    t.map_values(|e: (Seq<char>, Option<u64>)| e.0)
}

/// The managed region for a store: nothing when blocking is disabled,
/// otherwise the start marker, eight lines per permanent then per timed
/// domain, and the end marker.
pub open spec fn region_lines(store: BlockedSites) -> Seq<Seq<char>> {
    if store.is_blocking_enabled {
        seq![start_marker()] + domains_lines(store.perm()) + domains_lines(
            timed_domains(store.timed()),
        ) + seq![end_marker()]
    } else {
        Seq::<Seq<char>>::empty()
    }
}

proof fn lemma_domains_lines_push(ds: Seq<Seq<char>>, x: Seq<char>)
    ensures
        domains_lines(ds.push(x)) == domains_lines(ds) + domain_lines(x),
    decreases ds.len(),
{
    let p = ds.push(x);
    if ds.len() == 0 {
        assert(p[0] == x);
        assert(p.drop_first() =~= Seq::<Seq<char>>::empty());
        assert(domains_lines(p.drop_first()) == Seq::<Seq<char>>::empty());
        assert(domains_lines(p) == domain_lines(x) + Seq::<Seq<char>>::empty());
        assert(domain_lines(x) + Seq::<Seq<char>>::empty() =~= domain_lines(x));
        assert(domains_lines(ds) == Seq::<Seq<char>>::empty());
        assert(domains_lines(ds) + domain_lines(x) =~= domain_lines(x));
    } else {
        assert(p.drop_first() =~= ds.drop_first().push(x));
        lemma_domains_lines_push(ds.drop_first(), x);
        assert(domains_lines(p) =~= domains_lines(ds) + domain_lines(x));
    }
}

/// The hosts lines for a domain list number eight per domain.
pub proof fn lemma_domains_lines_len(ds: Seq<Seq<char>>)
    ensures
        domains_lines(ds).len() == 8 * ds.len(),
    decreases ds.len(),
{
    if ds.len() > 0 {
        lemma_domains_lines_len(ds.drop_first());
    }
}

/// Append the eight hosts lines for one domain.
fn push_domain_lines(out: &mut Vec<String>, d: &str)
    ensures
        views_of(final (out)@) == views_of(old(out)@) + domain_lines(d@),
{
    let v0 = variant_str(d, 0);
    let v1 = variant_str(d, 1);
    let v2 = variant_str(d, 2);
    let v3 = variant_str(d, 3);
    out.push("127.0.0.1 ".to_owned().concat(v0.as_str()));
    out.push("::1 ".to_owned().concat(v0.as_str()));
    out.push("127.0.0.1 ".to_owned().concat(v1.as_str()));
    out.push("::1 ".to_owned().concat(v1.as_str()));
    out.push("127.0.0.1 ".to_owned().concat(v2.as_str()));
    out.push("::1 ".to_owned().concat(v2.as_str()));
    out.push("127.0.0.1 ".to_owned().concat(v3.as_str()));
    out.push("::1 ".to_owned().concat(v3.as_str()));
    proof {
        assert(views_of(out@) =~= views_of(old(out)@) + domain_lines(d@));
    }
}

/// Render the managed region for the current store state.
pub fn render_region(store: &BlockedSites) -> (r: Vec<String>)
    ensures
        views_of(r@) == region_lines(*store),
{
    let mut out: Vec<String> = Vec::new();
    if !store.is_blocking_enabled {
        proof {
            assert(views_of(out@) =~= region_lines(*store));
        }
        return out;
    }
    let start = "# Website Blocker - Start";
    out.push(start.to_owned());
    proof {
        assert(views_of(out@) =~= seq![start_marker()] + domains_lines(store.perm().take(0)));
    }
    let mut i: usize = 0;
    while i < store.permanent_sites.len()
        invariant
            0 <= i <= store.perm().len(),
            views_of(out@) == seq![start_marker()] + domains_lines(store.perm().take(i as int)),
        decreases store.perm().len() - i,
    {
        push_domain_lines(&mut out, store.permanent_sites[i].as_str());
        proof {
            lemma_domains_lines_push(store.perm().take(i as int), store.perm()[i as int]);
            assert(store.perm().take(i as int).push(store.perm()[i as int]) =~= store.perm().take(
                i + 1,
            ));
        }
        i = i + 1;
    }
    proof {
        assert(store.perm().take(store.perm().len() as int) =~= store.perm());
    }
    let ghost tds = timed_domains(store.timed());
    let mut j: usize = 0;
    while j < store.timed_sites.len()
        invariant
            0 <= j <= tds.len(),
            tds == timed_domains(store.timed()),
            tds.len() == store.timed().len(),
            views_of(out@) == seq![start_marker()] + domains_lines(store.perm()) + domains_lines(
                tds.take(j as int),
            ),
        decreases tds.len() - j,
    {
        push_domain_lines(&mut out, store.timed_sites[j].domain.as_str());
        proof {
            lemma_domains_lines_push(tds.take(j as int), tds[j as int]);
            assert(tds.take(j as int).push(tds[j as int]) =~= tds.take(j + 1));
            assert(views_of(out@) =~= seq![start_marker()] + domains_lines(store.perm())
                + domains_lines(tds.take(j + 1)));
        }
        j = j + 1;
    }
    let endm = "# Website Blocker - End";
    out.push(endm.to_owned());
    proof {
        assert(tds.take(tds.len() as int) =~= tds);
        assert(views_of(out@) =~= region_lines(*store));
    }
    out
}

/// The lines a sync writes: the cleaned previous content followed by the
/// managed region of the (already swept) store.
pub open spec fn synced_lines(store: BlockedSites, old_lines: Seq<Seq<char>>) -> Seq<Seq<char>> {
    clean_spec(old_lines, store.perm()) + region_lines(store)
}

impl BlockedSites {
    /// Compute the new hosts-file text for this store: clean the previous
    /// content, sweep expired entries, and append the managed region when
    /// blocking is enabled.
    pub fn update_hosts_content(&mut self, hosts_content: &str, now: u64) -> (r: String)
        requires
            old(self).wf(),
        ensures
            final (self).wf(),
            final (self).perm() == old(self).perm(),
            final (self).is_blocking_enabled == old(self).is_blocking_enabled,
            final (self).timed() == old(self).timed().filter(keep_timed(now)),
            r@ == join_lines_spec(
                synced_lines(*final (self), split_lines_spec(hosts_content@)),
            ),
    {
        let lines = split_lines(hosts_content);
        let mut out = clean_hosts_lines(&lines, self);
        self.clean_expired_sites(now);
        let mut region = render_region(self);
        let ghost cleaned = views_of(out@);
        let ghost reg = views_of(region@);
        out.append(&mut region);
        proof {
            assert(views_of(out@) =~= cleaned + reg);
            assert(views_of(out@) =~= synced_lines(*self, split_lines_spec(hosts_content@)));
        }
        join_lines(&out)
    }
}

/// Law: with blocking enabled the managed region holds its two marker
/// lines and exactly eight lines per blocked domain between them.
pub proof fn lemma_region_line_count(store: BlockedSites)
    requires
        store.is_blocking_enabled,
    ensures
        region_lines(store).len() == 2 + 8 * store.perm().len() + 8 * store.timed().len(),
        region_lines(store)[0] == start_marker(),
        region_lines(store)[region_lines(store).len() - 1] == end_marker(),
{
    lemma_domains_lines_len(store.perm());
    lemma_domains_lines_len(timed_domains(store.timed()));
}

/// Law: every line the clean step keeps is non-empty, holds no managed-
/// region tag, and mentions no variant of a permanently blocked domain.
pub proof fn lemma_clean_lines_free(lines: Seq<Seq<char>>, perms: Seq<Seq<char>>)
    ensures
        forall|i: int|
            0 <= i < clean_spec(lines, perms).len() ==> keep_line(
                #[trigger] clean_spec(lines, perms)[i],
                perms,
            ),
{
    let trimmed = lines.map_values(|l: Seq<char>| trim_spec(l));
    assert forall|i: int| 0 <= i < clean_spec(lines, perms).len() implies keep_line(
        #[trigger] clean_spec(lines, perms)[i],
        perms,
    ) by {
        trimmed.lemma_filter_pred(keep_line_p(perms), i);
    }
}

/// Law: syncing a disabled store writes only the cleaned lines — no
/// managed-region markers and no variant of a blocked permanent domain.
pub proof fn lemma_disabled_sync_is_clean(store: BlockedSites, old_lines: Seq<Seq<char>>)
    requires
        !store.is_blocking_enabled,
    ensures
        synced_lines(store, old_lines) == clean_spec(old_lines, store.perm()),
        forall|i: int|
            0 <= i < synced_lines(store, old_lines).len() ==> keep_line(
                #[trigger] synced_lines(store, old_lines)[i],
                store.perm(),
            ),
{
    assert(synced_lines(store, old_lines) =~= clean_spec(old_lines, store.perm()));
    lemma_clean_lines_free(old_lines, store.perm());
}

/// What startup normalization makes of a hosts file holding the DNS
/// sentinel: everything up through the sentinel and its following
/// character, then the managed region from its start marker on, if one
/// exists anywhere in the file.
pub open spec fn normalized_spec(content: Seq<char>) -> Seq<char> {
    match find_sub_spec(content, dns_sentinel()) {
        None => content,
        Some(di) => {
            let keep = di + dns_sentinel().len() + 1;
            let prefix = if keep <= content.len() {
                content.take(keep)
            } else {
                content
            };
            match find_sub_spec(content, start_marker()) {
                None => prefix,
                Some(bi) => prefix + content.skip(bi),
            }
        },
    }
}

/// Normalize a hosts file's content at startup: drop whatever stands
/// between the DNS sentinel comment and the managed region.  Refused,
/// with the content untouched, when the sentinel is absent.
pub fn process_hosts_file(content: &str) -> (r: Result<String, NormalizeError>)
    ensures
        match r {
            Ok(out) => has_sub(content@, dns_sentinel()) && out@ == normalized_spec(content@),
            Err(e) => e == NormalizeError::DnsMarkerNotFound && !has_sub(content@, dns_sentinel()),
        },
{
    let sent = "# localhost name resolution is handled within DNS itself.";
    let len = content.unicode_len();
    match find_sub(content, sent) {
        None => Err(NormalizeError::DnsMarkerNotFound),
        Some(di) => {
            proof {
                lemma_find_sub_spec_at(content@, dns_sentinel(), di as int);
            }
            let sl = sent.unicode_len();
            let keep = if di + sl < len {
                di + sl + 1
            } else {
                len
            };
            let prefix = content.substring_char(0, keep);
            proof {
                assert(content@.subrange(0, keep as int) =~= content@.take(keep as int));
                if di + sl >= len {
                    assert(content@.take(len as int) =~= content@);
                }
            }
            let start = "# Website Blocker - Start";
            match find_sub(content, start) {
                None => {
                    proof {
                        lemma_find_sub_spec_none(content@, start_marker());
                    }
                    Ok(prefix.to_owned())
                },
                Some(bi) => {
                    proof {
                        lemma_find_sub_spec_at(content@, start_marker(), bi as int);
                    }
                    let tail = content.substring_char(bi, len);
                    proof {
                        assert(content@.subrange(bi as int, len as int) =~= content@.skip(
                            bi as int,
                        ));
                    }
                    Ok(prefix.to_owned().concat(tail))
                },
            }
        },
    }
}

/// Decide what a privilege probe's output means: on Windows the probe is
/// `whoami /priv` and grants when the take-ownership privilege is listed;
/// elsewhere it is `id -u` and grants when the trimmed output is `0`.
pub fn probe_grants_permission(output: &str, windows_mode: bool) -> (r: bool)
    ensures
        r == if windows_mode {
            has_sub(output@, "SeTakeOwnershipPrivilege"@)
        } else {
            trim_spec(output@) == "0"@
        },
{
    if windows_mode {
        contains_sub(output, "SeTakeOwnershipPrivilege")
    } else {
        let t = trim_str(output);
        str_eq(t.as_str(), "0")
    }
}

} // verus!
