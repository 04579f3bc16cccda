//! The persisted form of the blocklist store, and its parser.
//!
//! The store is written as plain text, one record per line: first the
//! enable switch, then one line per permanent domain, then one line per
//! timed entry (with its expiry in decimal seconds, or `*` for none).
//! Parsing is strict — an unreadable line, a malformed number or a
//! duplicate domain makes the whole text unreadable — and a caller that
//! meets unreadable text falls back to the empty, disabled store.
//! A well-formed store round-trips through this form without loss.
use vstd::prelude::*;
use vstd::string::*;
use crate::domain::{is_plain_domain, is_plain_domain_str};
use crate::store::{BlockedSites, TimedSite};
use crate::strutil::{
    dec_str, digit_val, find_char, find_char_str, has_prefix, is_digit, is_space_char,
    join_lines, join_lines_spec, lemma_dec_str_digits, lemma_find_char_at, lemma_parse_of_dec_str,
    lemma_split_of_join, no_nl, parse_dec_spec, parse_u64, split_lines, split_lines_spec,
    starts_with_str, str_eq, u64_to_string, views_of,
};

verus! {

/// The parsed content of a persisted store: the views that a
/// `BlockedSites` value carrying it would have.
pub struct ParsedStore {
    pub perm: Seq<Seq<char>>,
    pub timed: Seq<(Seq<char>, Option<u64>)>,
    pub enabled: bool,
}

/// The line recording the enable switch.
pub open spec fn enabled_line(b: bool) -> Seq<char> {
    if b {
        "enabled 1"@
    } else {
        "enabled 0"@
    }
}

/// The line recording one permanent domain.
pub open spec fn perm_line(d: Seq<char>) -> Seq<char> {
    "perm "@ + d
}

/// The line recording one timed entry.
pub open spec fn timed_line(e: (Seq<char>, Option<u64>)) -> Seq<char> {
    match e.1 {
        None => "timed * "@ + e.0,
        Some(t) => "timed "@ + dec_str(t as nat) + " "@ + e.0,
    }
}

/// The lines of the persisted form of a store.
pub open spec fn store_lines(s: BlockedSites) -> Seq<Seq<char>> {
    seq![enabled_line(s.is_blocking_enabled)] + s.perm().map_values(|d: Seq<char>| perm_line(d))
        + s.timed().map_values(|e: (Seq<char>, Option<u64>)| timed_line(e))
}

/// The persisted form of a store.
pub open spec fn serialize_spec(s: BlockedSites) -> Seq<char> {
    join_lines_spec(store_lines(s))
}

/// What the switch line parses to.
pub open spec fn parse_enabled(l: Seq<char>) -> Option<bool> {
    if l == enabled_line(true) {
        Some(true)
    } else if l == enabled_line(false) {
        Some(false)
    } else {
        None
    }
}

/// What an entry line parses to: the domain, and `None` for a permanent
/// entry or `Some(expiry)` for a timed one.
pub open spec fn parse_entry(l: Seq<char>) -> Option<(Seq<char>, Option<Option<u64>>)> {
    if has_prefix(l, "perm "@) {
        let d = l.skip("perm "@.len() as int);
        if is_plain_domain(d) {
            Some((d, None))
        } else {
            None
        }
    } else if has_prefix(l, "timed * "@) {
        let d = l.skip("timed * "@.len() as int);
        if is_plain_domain(d) {
            Some((d, Some(None)))
        } else {
            None
        }
    } else if has_prefix(l, "timed "@) {
        let rest = l.skip("timed "@.len() as int);
        match find_char(rest, ' ') {
            None => None,
            Some(k) => if 0 <= k < rest.len() {
                match parse_dec_spec(rest.take(k)) {
                    None => None,
                    Some(t) => {
                        let d = rest.skip(k + 1);
                        if is_plain_domain(d) {
                            Some((d, Some(Some(t))))
                        } else {
                            None
                        }
                    },
                }
            } else {
                None
            },
        }
    } else {
        None
    }
}

/// Whether `d` is the domain of some entry of `t`.
pub open spec fn dom_in(t: Seq<(Seq<char>, Option<u64>)>, d: Seq<char>) -> bool {
    exists|i: int| 0 <= i < t.len() && (#[trigger] t[i]).0 == d
}

/// Parse entry lines onto an accumulated store, refusing malformed lines
/// and duplicate domains.
pub open spec fn parse_entries(ls: Seq<Seq<char>>, acc: ParsedStore) -> Option<ParsedStore>
    decreases ls.len(),
{
    if ls.len() == 0 {
        Some(acc)
    } else {
        match parse_entry(ls[0]) {
            None => None,
            Some(pe) => if acc.perm.contains(pe.0) || dom_in(acc.timed, pe.0) {
                None
            } else {
                let acc2 = match pe.1 {
                    None => ParsedStore {
                        perm: acc.perm.push(pe.0),
                        timed: acc.timed,
                        enabled: acc.enabled,
                    },
                    Some(e) => ParsedStore {
                        perm: acc.perm,
                        timed: acc.timed.push((pe.0, e)),
                        enabled: acc.enabled,
                    },
                };
                parse_entries(ls.drop_first(), acc2)
            },
        }
    }
}

/// What a persisted text parses to, if it is well formed.
pub open spec fn parse_store(content: Seq<char>) -> Option<ParsedStore> {
    let ls = split_lines_spec(content);
    match parse_enabled(ls[0]) {
        None => None,
        Some(b) => parse_entries(
            ls.drop_first(),
            ParsedStore { perm: Seq::empty(), timed: Seq::empty(), enabled: b },
        ),
    }
}

impl BlockedSites {
    /// Render this store in its persisted form.
    pub fn serialize_blocked_sites(&self) -> (r: String)
        ensures
            r@ == serialize_spec(*self),
    {
        let ghost pl = self.perm().map_values(|d: Seq<char>| perm_line(d));
        let ghost tl = self.timed().map_values(|e: (Seq<char>, Option<u64>)| timed_line(e));
        let mut lines: Vec<String> = Vec::new();
        if self.is_blocking_enabled {
            lines.push("enabled 1".to_owned());
        } else {
            lines.push("enabled 0".to_owned());
        }
        let mut i: usize = 0;
        while i < self.permanent_sites.len()
            invariant
                0 <= i <= self.perm().len(),
                pl == self.perm().map_values(|d: Seq<char>| perm_line(d)),
                views_of(lines@) == seq![enabled_line(self.is_blocking_enabled)] + pl.take(
                    i as int,
                ),
            decreases self.perm().len() - i,
        {
            let line = "perm ".to_owned().concat(self.permanent_sites[i].as_str());
            let ghost prev = lines@;
            lines.push(line);
            proof {
                assert(self.perm()[i as int] == self.permanent_sites@[i as int]@);
                assert(pl[i as int] == perm_line(self.perm()[i as int]));
                assert(views_of(lines@) =~= views_of(prev).push(pl[i as int]));
                assert(views_of(prev).push(pl[i as int]) =~= seq![enabled_line(
                    self.is_blocking_enabled,
                )] + pl.take(i + 1));
                assert(views_of(lines@) =~= seq![enabled_line(self.is_blocking_enabled)]
                    + pl.take(i + 1));
            }
            i = i + 1;
        }
        proof {
            assert(pl.take(pl.len() as int) =~= pl);
        }
        let mut j: usize = 0;
        while j < self.timed_sites.len()
            invariant
                0 <= j <= self.timed().len(),
                pl == self.perm().map_values(|d: Seq<char>| perm_line(d)),
                tl == self.timed().map_values(|e: (Seq<char>, Option<u64>)| timed_line(e)),
                views_of(lines@) == seq![enabled_line(self.is_blocking_enabled)] + pl + tl.take(
                    j as int,
                ),
            decreases self.timed().len() - j,
        {
            let line = match self.timed_sites[j].expiry {
                None => "timed * ".to_owned().concat(self.timed_sites[j].domain.as_str()),
                Some(t) => "timed ".to_owned().concat(u64_to_string(t).as_str()).concat(
                    " ",
                ).concat(self.timed_sites[j].domain.as_str()),
            };
            proof {
                assert(self.timed()[j as int] == (
                    self.timed_sites@[j as int].domain@,
                    self.timed_sites@[j as int].expiry,
                ));
                assert(line@ == timed_line(self.timed()[j as int]));
            }
            let ghost prev = lines@;
            lines.push(line);
            proof {
                assert(tl[j as int] == timed_line(self.timed()[j as int]));
                assert(views_of(lines@) =~= views_of(prev).push(tl[j as int]));
                assert(views_of(prev).push(tl[j as int]) =~= seq![enabled_line(
                    self.is_blocking_enabled,
                )] + pl + tl.take(j + 1));
                assert(views_of(lines@) =~= seq![enabled_line(self.is_blocking_enabled)] + pl
                    + tl.take(j + 1));
            }
            j = j + 1;
        }
        proof {
            assert(tl.take(tl.len() as int) =~= tl);
            assert(views_of(lines@) =~= store_lines(*self));
        }
        join_lines(&lines)
    }
}

/// Parse one entry line.
fn parse_entry_line(l: &str) -> (r: Option<(String, Option<Option<u64>>)>)
    ensures
        match r {
            Some(pe) => parse_entry(l@) == Some((pe.0@, pe.1)),
            None => parse_entry(l@) is None,
        },
{
    let len = l.unicode_len();
    if starts_with_str(l, "perm ") {
        proof {
            reveal_strlit("perm ");
        }
        let d = l.substring_char(5, len);
        proof {
            assert(d@ =~= l@.skip("perm "@.len() as int));
        }
        if is_plain_domain_str(d) {
            Some((d.to_owned(), None))
        } else {
            None
        }
    } else if starts_with_str(l, "timed * ") {
        proof {
            reveal_strlit("timed * ");
        }
        let d = l.substring_char(8, len);
        proof {
            assert(d@ =~= l@.skip("timed * "@.len() as int));
        }
        if is_plain_domain_str(d) {
            Some((d.to_owned(), Some(None)))
        } else {
            None
        }
    } else if starts_with_str(l, "timed ") {
        proof {
            reveal_strlit("timed ");
        }
        let rest = l.substring_char(6, len);
        proof {
            assert(rest@ =~= l@.skip("timed "@.len() as int));
        }
        let rlen = rest.unicode_len();
        match find_char_str(rest, ' ') {
            None => None,
            Some(k) => {
                proof {
                    crate::strutil::lemma_find_char_props(rest@, ' ');
                }
                let digits = rest.substring_char(0, k);
                proof {
                    assert(digits@ =~= rest@.take(k as int));
                }
                match parse_u64(digits) {
                    None => None,
                    Some(t) => {
                        let d = rest.substring_char(k + 1, rlen);
                        proof {
                            assert(d@ =~= rest@.skip(k + 1));
                        }
                        if is_plain_domain_str(d) {
                            Some((d.to_owned(), Some(Some(t))))
                        } else {
                            None
                        }
                    },
                }
            },
        }
    } else {
        None
    }
}

proof fn lemma_wf_push_perm(older: BlockedSites, newer: BlockedSites, d: Seq<char>)
    requires
        older.wf(),
        is_plain_domain(d),
        !older.has_perm(d),
        !older.has_timed(d),
        newer.perm() == older.perm().push(d),
        newer.timed() == older.timed(),
    ensures
        newer.wf(),
{
    assert forall|i: int, j: int| 0 <= i < j < newer.perm().len() implies #[trigger] newer.perm()[
    i] != #[trigger] newer.perm()[j] by {
        if j == newer.perm().len() - 1 {
            assert(newer.perm()[i] == older.perm()[i]);
            assert(older.perm().contains(older.perm()[i]));
            if older.perm()[i] == d {
                assert(older.has_perm(d));
            }
        }
    }
    assert forall|i: int, j: int|
        0 <= i < newer.perm().len() && 0 <= j < newer.timed().len() implies #[trigger] newer.perm()[
    i] != (#[trigger] newer.timed()[j]).0 by {
        if i == newer.perm().len() - 1 {
            if newer.timed()[j].0 == d {
                assert((older.timed()[j]).0 == d);
                assert(older.has_timed(d));
            }
        } else {
            assert(newer.perm()[i] == older.perm()[i]);
        }
    }
    assert forall|i: int| 0 <= i < newer.perm().len() implies is_plain_domain(
        #[trigger] newer.perm()[i],
    ) by {
        if i < newer.perm().len() - 1 {
            assert(newer.perm()[i] == older.perm()[i]);
        }
    }
}

proof fn lemma_wf_push_timed(older: BlockedSites, newer: BlockedSites, d: Seq<char>, e: Option<u64>)
    requires
        older.wf(),
        is_plain_domain(d),
        !older.has_perm(d),
        !older.has_timed(d),
        newer.perm() == older.perm(),
        newer.timed() == older.timed().push((d, e)),
    ensures
        newer.wf(),
{
    assert forall|i: int, j: int| 0 <= i < j < newer.timed().len() implies (
    #[trigger] newer.timed()[i]).0 != (#[trigger] newer.timed()[j]).0 by {
        if j == newer.timed().len() - 1 {
            assert(newer.timed()[i] == older.timed()[i]);
            if older.timed()[i].0 == d {
                assert(older.has_timed(d));
            }
        }
    }
    assert forall|i: int, j: int|
        0 <= i < newer.perm().len() && 0 <= j < newer.timed().len() implies #[trigger] newer.perm()[
    i] != (#[trigger] newer.timed()[j]).0 by {
        if j == newer.timed().len() - 1 {
            if newer.perm()[i] == d {
                assert(older.has_perm(d));
            }
        } else {
            assert(newer.timed()[j] == older.timed()[j]);
        }
    }
    assert forall|i: int| 0 <= i < newer.timed().len() implies is_plain_domain(
        (#[trigger] newer.timed()[i]).0,
    ) by {
        if i < newer.timed().len() - 1 {
            assert(newer.timed()[i] == older.timed()[i]);
        }
    }
}

proof fn lemma_no_nl_concat(a: Seq<char>, b: Seq<char>)
    requires
        no_nl(a),
        no_nl(b),
    ensures
        no_nl(a + b),
{
    assert forall|i: int| 0 <= i < (a + b).len() implies #[trigger] (a + b)[i] != '\n' by {
        if i < a.len() {
            assert(a[i] != '\n');
        } else {
            assert(b[i - a.len()] != '\n');
        }
    }
}

proof fn lemma_plain_no_nl(d: Seq<char>)
    requires
        is_plain_domain(d),
    ensures
        no_nl(d),
{
    assert forall|i: int| 0 <= i < d.len() implies #[trigger] d[i] != '\n' by {
        assert(!is_space_char(d[i]));
    }
}

proof fn lemma_digits_no_nl(t: nat)
    ensures
        no_nl(dec_str(t)),
{
    lemma_dec_str_digits(t);
    assert forall|i: int| 0 <= i < dec_str(t).len() implies #[trigger] dec_str(t)[i] != '\n' by {
        assert(is_digit(dec_str(t)[i]));
        assert(digit_val('\n') == -1);
    }
}

proof fn lemma_no_nl_lit()
    ensures
        no_nl("enabled 1"@),
        no_nl("enabled 0"@),
        no_nl("perm "@),
        no_nl("timed * "@),
        no_nl("timed "@),
        no_nl(" "@),
        "enabled 1"@ != "enabled 0"@,
{
    reveal_strlit("enabled 1");
    reveal_strlit("enabled 0");
    reveal_strlit("perm ");
    reveal_strlit("timed * ");
    reveal_strlit("timed ");
    reveal_strlit(" ");
    assert("enabled 1"@[8] == '1');
    assert("enabled 0"@[8] == '0');
}

proof fn lemma_parse_perm_entry(d: Seq<char>)
    requires
        is_plain_domain(d),
    ensures
        parse_entry(perm_line(d)) == Some((d, None::<Option<u64>>)),
{
    reveal_strlit("perm ");
    let l = perm_line(d);
    assert(has_prefix(l, "perm "@)) by {
        assert(l.subrange(0, 5) =~= "perm "@);
    }
    assert(l.skip(5) =~= d);
}

proof fn lemma_parse_timed_none_entry(d: Seq<char>)
    requires
        is_plain_domain(d),
    ensures
        parse_entry(timed_line((d, None))) == Some((d, Some(None::<u64>))),
{
    reveal_strlit("perm ");
    reveal_strlit("timed * ");
    let l = timed_line((d, None));
    assert(l == "timed * "@ + d);
    assert(!has_prefix(l, "perm "@)) by {
        if has_prefix(l, "perm "@) {
            assert(l.subrange(0, 5)[0] == l[0]);
            assert(l[0] == 't');
            assert("perm "@[0] == 'p');
        }
    }
    assert(has_prefix(l, "timed * "@)) by {
        assert(l.subrange(0, 8) =~= "timed * "@);
    }
    assert(l.skip(8) =~= d);
}

proof fn lemma_parse_timed_some_entry(d: Seq<char>, t: u64)
    requires
        is_plain_domain(d),
    ensures
        parse_entry(timed_line((d, Some(t)))) == Some((d, Some(Some(t)))),
{
    reveal_strlit("perm ");
    reveal_strlit("timed * ");
    reveal_strlit("timed ");
    reveal_strlit(" ");
    lemma_dec_str_digits(t as nat);
    let ds = dec_str(t as nat);
    let l = timed_line((d, Some(t)));
    assert(l == "timed "@ + ds + " "@ + d);
    assert(l.len() == 7 + ds.len() + d.len());
    assert(l[0] == 't');
    assert(!has_prefix(l, "perm "@)) by {
        if has_prefix(l, "perm "@) {
            assert(l.subrange(0, 5)[0] == l[0]);
            assert("perm "@[0] == 'p');
        }
    }
    assert(l[6] == ds[0]);
    assert(is_digit(ds[0]));
    assert(!has_prefix(l, "timed * "@)) by {
        if has_prefix(l, "timed * "@) {
            assert(l.subrange(0, 8)[6] == l[6]);
            assert("timed * "@[6] == '*');
            assert(digit_val('*') == -1);
        }
    }
    assert(has_prefix(l, "timed "@)) by {
        assert(l.subrange(0, 6) =~= "timed "@);
    }
    let rest = l.skip(6);
    assert(rest =~= ds + " "@ + d);
    assert forall|k: int| 0 <= k < ds.len() implies rest[k] != ' ' by {
        assert(rest[k] == ds[k]);
        assert(is_digit(ds[k]));
        assert(digit_val(' ') == -1);
    }
    assert(rest[ds.len() as int] == ' ');
    lemma_find_char_at(rest, ' ', ds.len() as int);
    assert(find_char(rest, ' ') == Some(ds.len() as int));
    assert(rest.take(ds.len() as int) =~= ds);
    lemma_parse_of_dec_str(t);
    assert(rest.skip(ds.len() as int + 1) =~= d);
}

proof fn lemma_parse_timed_phase(s: BlockedSites, j: int, b: bool)
    requires
        s.wf(),
        0 <= j <= s.timed().len(),
    ensures
        parse_entries(
            s.timed().map_values(|e: (Seq<char>, Option<u64>)| timed_line(e)).skip(j),
            ParsedStore { perm: s.perm(), timed: s.timed().take(j), enabled: b },
        ) == Some(ParsedStore { perm: s.perm(), timed: s.timed(), enabled: b }),
    decreases s.timed().len() - j,
{
    let tl = s.timed().map_values(|e: (Seq<char>, Option<u64>)| timed_line(e));
    if j == s.timed().len() {
        assert(tl.skip(j) =~= Seq::<Seq<char>>::empty());
        assert(s.timed().take(j) =~= s.timed());
    } else {
        let e = s.timed()[j];
        assert(is_plain_domain(e.0));
        match e.1 {
            None => {
                lemma_parse_timed_none_entry(e.0);
                assert(timed_line(e) == timed_line((e.0, None::<u64>)));
            },
            Some(t) => {
                lemma_parse_timed_some_entry(e.0, t);
                assert(timed_line(e) == timed_line((e.0, Some(t))));
            },
        }
        assert(tl.skip(j)[0] == tl[j]);
        assert(tl[j] == timed_line(e));
        assert(parse_entry(tl.skip(j)[0]) == Some((e.0, Some(e.1))));
        assert(!s.perm().contains(e.0)) by {
            if s.perm().contains(e.0) {
                let a = choose|a: int| 0 <= a < s.perm().len() && s.perm()[a] == e.0;
                assert(s.perm()[a] != s.timed()[j].0);
            }
        }
        assert(!dom_in(s.timed().take(j), e.0)) by {
            if dom_in(s.timed().take(j), e.0) {
                let a = choose|a: int|
                    0 <= a < j && (s.timed().take(j)[a]).0 == e.0;
                assert(s.timed()[a].0 != s.timed()[j].0);
            }
        }
        assert(s.timed().take(j).push(e) =~= s.timed().take(j + 1));
        assert(tl.skip(j).drop_first() =~= tl.skip(j + 1));
        lemma_parse_timed_phase(s, j + 1, b);
    }
}

proof fn lemma_parse_perm_phase(s: BlockedSites, i: int, b: bool)
    requires
        s.wf(),
        0 <= i <= s.perm().len(),
    ensures
        parse_entries(
            s.perm().map_values(|d: Seq<char>| perm_line(d)).skip(i) + s.timed().map_values(
                |e: (Seq<char>, Option<u64>)| timed_line(e),
            ),
            ParsedStore {
                perm: s.perm().take(i),
                timed: Seq::<(Seq<char>, Option<u64>)>::empty(),
                enabled: b,
            },
        ) == Some(ParsedStore { perm: s.perm(), timed: s.timed(), enabled: b }),
    decreases s.perm().len() - i,
{
    let pl = s.perm().map_values(|d: Seq<char>| perm_line(d));
    let tl = s.timed().map_values(|e: (Seq<char>, Option<u64>)| timed_line(e));
    if i == s.perm().len() {
        assert(pl.skip(i) + tl =~= tl.skip(0));
        assert(s.perm().take(i) =~= s.perm());
        assert(s.timed().take(0) =~= Seq::<(Seq<char>, Option<u64>)>::empty());
        lemma_parse_timed_phase(s, 0, b);
        assert(ParsedStore {
            perm: s.perm().take(i),
            timed: Seq::<(Seq<char>, Option<u64>)>::empty(),
            enabled: b,
        } == ParsedStore { perm: s.perm(), timed: s.timed().take(0), enabled: b });
    } else {
        let d = s.perm()[i];
        assert(is_plain_domain(d));
        lemma_parse_perm_entry(d);
        assert((pl.skip(i) + tl)[0] == pl[i]);
        assert(pl[i] == perm_line(d));
        assert(!s.perm().take(i).contains(d)) by {
            if s.perm().take(i).contains(d) {
                let a = choose|a: int| 0 <= a < i && s.perm().take(i)[a] == d;
                assert(s.perm()[a] != s.perm()[i]);
            }
        }
        assert(s.perm().take(i).push(d) =~= s.perm().take(i + 1));
        assert((pl.skip(i) + tl).drop_first() =~= pl.skip(i + 1) + tl);
        lemma_parse_perm_phase(s, i + 1, b);
    }
}

/// Law: a well-formed store's persisted form parses back to the same
/// permanent domains, timed entries and enable switch, with no loss.
pub proof fn lemma_serialize_round_trip(s: BlockedSites)
    requires
        s.wf(),
    ensures
        parse_store(serialize_spec(s)) == Some(
            ParsedStore { perm: s.perm(), timed: s.timed(), enabled: s.is_blocking_enabled },
        ),
{
    lemma_no_nl_lit();
    let sl = store_lines(s);
    let pl = s.perm().map_values(|d: Seq<char>| perm_line(d));
    let tl = s.timed().map_values(|e: (Seq<char>, Option<u64>)| timed_line(e));
    assert forall|i: int| 0 <= i < sl.len() implies no_nl(#[trigger] sl[i]) by {
        if i == 0 {
        } else if i < 1 + s.perm().len() {
            assert(sl[i] == pl[i - 1]);
            assert(pl[i - 1] == perm_line(s.perm()[i - 1]));
            lemma_plain_no_nl(s.perm()[i - 1]);
            lemma_no_nl_concat("perm "@, s.perm()[i - 1]);
        } else {
            let e = s.timed()[i - 1 - s.perm().len()];
            assert(sl[i] == tl[i - 1 - s.perm().len()]);
            assert(tl[i - 1 - s.perm().len()] == timed_line(e));
            lemma_plain_no_nl(e.0);
            match e.1 {
                None => {
                    lemma_no_nl_concat("timed * "@, e.0);
                },
                Some(t) => {
                    lemma_digits_no_nl(t as nat);
                    lemma_no_nl_concat("timed "@, dec_str(t as nat));
                    lemma_no_nl_concat("timed "@ + dec_str(t as nat), " "@);
                    lemma_no_nl_concat("timed "@ + dec_str(t as nat) + " "@, e.0);
                },
            }
        }
    }
    lemma_split_of_join(sl);
    assert(split_lines_spec(serialize_spec(s)) == sl);
    assert(sl[0] == enabled_line(s.is_blocking_enabled));
    assert(parse_enabled(sl[0]) == Some(s.is_blocking_enabled));
    assert(sl.drop_first() =~= pl + tl);
    assert(s.perm().take(0) =~= Seq::<Seq<char>>::empty());
    assert(pl.skip(0) =~= pl);
    lemma_parse_perm_phase(s, 0, s.is_blocking_enabled);
    assert(ParsedStore {
        perm: Seq::<Seq<char>>::empty(),
        timed: Seq::<(Seq<char>, Option<u64>)>::empty(),
        enabled: s.is_blocking_enabled,
    } == ParsedStore {
        perm: s.perm().take(0),
        timed: Seq::<(Seq<char>, Option<u64>)>::empty(),
        enabled: s.is_blocking_enabled,
    });
}

/// Read a store from its persisted form; unreadable text, a malformed
/// line or a duplicate domain yields the empty, disabled store.
pub fn deserialize_blocked_sites(content: &str) -> (r: BlockedSites)
    ensures
        r.wf(),
        match parse_store(content@) {
            Some(p) => r.perm() == p.perm && r.timed() == p.timed && r.is_blocking_enabled
                == p.enabled,
            None => r.perm().len() == 0 && r.timed().len() == 0 && !r.is_blocking_enabled,
        },
{
    let lines = split_lines(content);
    let ghost ls = split_lines_spec(content@);
    let enabled: bool;
    if str_eq(lines[0].as_str(), "enabled 1") {
        enabled = true;
    } else if str_eq(lines[0].as_str(), "enabled 0") {
        enabled = false;
    } else {
        proof {
            assert(ls[0] == views_of(lines@)[0]);
        }
        return BlockedSites::default();
    }
    proof {
        assert(ls[0] == views_of(lines@)[0]);
        assert(parse_enabled(ls[0]) == Some(enabled));
    }
    let mut r = BlockedSites::default();
    r.is_blocking_enabled = enabled;
    proof {
        assert(r.wf());
    }
    let mut i: usize = 1;
    while i < lines.len()
        invariant
            1 <= i <= lines@.len(),
            ls == split_lines_spec(content@),
            views_of(lines@) == ls,
            r.wf(),
            r.is_blocking_enabled == enabled,
            parse_enabled(ls[0]) == Some(enabled),
            parse_entries(
                ls.skip(i as int),
                ParsedStore { perm: r.perm(), timed: r.timed(), enabled },
            ) == parse_store(content@),
        decreases lines@.len() - i,
    {
        let ghost acc = ParsedStore { perm: r.perm(), timed: r.timed(), enabled };
        proof {
            assert(ls.skip(i as int)[0] == ls[i as int]);
            assert(ls.skip(i as int).drop_first() =~= ls.skip(i + 1));
            assert(ls[i as int] == views_of(lines@)[i as int]);
        }
        match parse_entry_line(lines[i].as_str()) {
            None => {
                return BlockedSites::default();
            },
            Some(pe) => {
                let dup = r.contains_permanent(pe.0.as_str()) || r.contains_timed(pe.0.as_str());
                if dup {
                    return BlockedSites::default();
                }
                let ghost before = r;
                match pe.1 {
                    None => {
                        r.permanent_sites.push(pe.0);
                        proof {
                            assert(r.perm() =~= before.perm().push(pe.0@));
                            lemma_wf_push_perm(before, r, pe.0@);
                        }
                    },
                    Some(e) => {
                        r.timed_sites.push(TimedSite { domain: pe.0, expiry: e });
                        proof {
                            assert(r.timed() =~= before.timed().push((pe.0@, e)));
                            lemma_wf_push_timed(before, r, pe.0@, e);
                        }
                    },
                }
            },
        }
        i = i + 1;
    }
    proof {
        assert(ls.skip(lines@.len() as int) =~= Seq::<Seq<char>>::empty());
    }
    r
}

} // verus!
