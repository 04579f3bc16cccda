//! Domain validation and variant expansion.
//!
//! The validator turns free-form user input into a canonical host string:
//! it trims whitespace, strips a leading `http://`, then `https://`, then
//! `www.` (each strip applied to the result of the previous one), and
//! extracts the host of the remainder parsed as an `http` URL.  The
//! expander lists the alias host names blocked together with a domain.
use vstd::prelude::*;
use vstd::string::*;
use crate::strutil::{
    has_prefix, is_space_char, is_space_exec, lemma_lex_le_total, lemma_lex_le_trans, lex_le,
    strip_prefix_spec, strip_prefix_str, trim_spec, trim_str, str_lex_le, views_of,
};
use crate::ValidationError;

verus! {

/// A host string as the validator produces it: non-empty, no whitespace.
pub open spec fn is_plain_domain(s: Seq<char>) -> bool {
    s.len() > 0 && forall|i: int| 0 <= i < s.len() ==> !is_space_char(#[trigger] s[i])
}

/// Whether `s` is non-empty and free of whitespace.
pub fn is_plain_domain_str(s: &str) -> (r: bool)
    ensures
        r == is_plain_domain(s@),
{
    let len = s.unicode_len();
    if len == 0 {
        return false;
    }
    let mut i: usize = 0;
    while i < len
        invariant
            0 <= i <= len,
            len == s@.len(),
            forall|k: int| 0 <= k < i ==> !is_space_char(#[trigger] s@[k]),
        decreases len - i,
    {
        if is_space_exec(s.get_char(i)) {
            return false;
        }
        i = i + 1;
    }
    true
}

/// What parsing a string as a URL yields for the host component: nothing
/// when the parse fails, `Some(None)` when the URL has no host, and the
/// host text otherwise.  The outcome is a function of the string alone.
pub uninterp spec fn url_host_outcome(s: Seq<char>) -> Option<Option<Seq<char>>>;

/// Relies on `url::Url::parse` and `url::Url::host_str`: the parse outcome
/// and the host text depend on the input string alone, and a host accepted
/// under the `http` scheme is non-empty and holds no whitespace (the
/// parser strips ASCII tab and line breaks from its input and refuses the
/// forbidden host code points, space among them; an empty host is an error
/// for this scheme).
#[verifier::external_body]
fn parse_url_host(s: &str) -> (r: Option<Option<String>>)
    requires
        has_prefix(s@, "http://"@),
    ensures
        match r {
            None => url_host_outcome(s@) is None,
            Some(None) => url_host_outcome(s@) == Some(Option::<Seq<char>>::None),
            Some(Some(h)) => url_host_outcome(s@) == Some(Some(h@)) && is_plain_domain(h@),
        },
{
    match url::Url::parse(s) {
        Ok(u) => Some(u.host_str().map(|h| h.to_string())),
        Err(_) => None,
    }
}

/// The input after trimming and prefix stripping, before URL parsing.
/// Each strip applies to the result of the previous one.
pub open spec fn cleaned_of(raw: Seq<char>) -> Seq<char> {
    strip_prefix_spec(
        strip_prefix_spec(strip_prefix_spec(trim_spec(raw), "http://"@), "https://"@),
        "www."@,
    )
}

/// What validation yields for a raw input: the host of the cleaned input
/// parsed as an `http` URL, or the error that step produced.
pub open spec fn validate_spec(raw: Seq<char>) -> Result<Seq<char>, ValidationError> {
    match url_host_outcome("http://"@ + cleaned_of(raw)) {
        None => Err(ValidationError::InvalidFormat),
        Some(None) => Err(ValidationError::MissingHost),
        Some(Some(h)) => Ok(h),
    }
}

/// Validate raw user input and return the canonical domain it names.
pub fn validate_url(raw: &str) -> (r: Result<String, ValidationError>)
    ensures
        match r {
            Ok(d) => validate_spec(raw@) == Ok::<Seq<char>, ValidationError>(d@)
                && is_plain_domain(d@),
            Err(e) => validate_spec(raw@) == Err::<Seq<char>, ValidationError>(e),
        },
{
    let trimmed = trim_str(raw);
    let a = strip_prefix_str(trimmed.as_str(), "http://");
    let b = strip_prefix_str(a.as_str(), "https://");
    let cleaned = strip_prefix_str(b.as_str(), "www.");
    let full = "http://".to_owned().concat(cleaned.as_str());
    proof {
        assert(full@.subrange(0, "http://"@.len() as int) =~= "http://"@);
    }
    match parse_url_host(full.as_str()) {
        None => Err(ValidationError::InvalidFormat),
        Some(None) => Err(ValidationError::MissingHost),
        Some(Some(h)) => Ok(h),
    }
}

/// Law: the chained stripping sends each accepted spelling of a domain —
/// bare, with `http://`, and with `https://www.` — to the bare domain
/// before URL parsing.
pub proof fn lemma_cleaned_of_spellings()
    ensures
        cleaned_of("example.com"@) == "example.com"@,
        cleaned_of("http://example.com"@) == "example.com"@,
        cleaned_of("https://www.example.com"@) == "example.com"@,
{
    reveal_strlit("example.com");
    reveal_strlit("http://example.com");
    reveal_strlit("https://www.example.com");
    reveal_strlit("http://");
    reveal_strlit("https://");
    reveal_strlit("www.");
    lemma_untrimmed("example.com"@);
    lemma_untrimmed("http://example.com"@);
    lemma_untrimmed("https://www.example.com"@);
    let bare = "example.com"@;
    assert(!has_prefix(bare, "http://"@)) by {
        if has_prefix(bare, "http://"@) {
            assert(bare.subrange(0, 7)[0] == bare[0]);
        }
    }
    assert(!has_prefix(bare, "https://"@)) by {
        if has_prefix(bare, "https://"@) {
            assert(bare.subrange(0, 8)[0] == bare[0]);
        }
    }
    assert(!has_prefix(bare, "www."@)) by {
        if has_prefix(bare, "www."@) {
            assert(bare.subrange(0, 4)[0] == bare[0]);
        }
    }
    let hs = "http://example.com"@;
    assert(has_prefix(hs, "http://"@)) by {
        assert(hs.subrange(0, 7) =~= "http://"@);
    }
    assert(hs.skip(7) =~= bare);
    let ss = "https://www.example.com"@;
    assert(!has_prefix(ss, "http://"@)) by {
        if has_prefix(ss, "http://"@) {
            assert(ss.subrange(0, 7)[4] == ss[4]);
        }
    }
    assert(has_prefix(ss, "https://"@)) by {
        assert(ss.subrange(0, 8) =~= "https://"@);
    }
    let w = ss.skip(8);
    assert(has_prefix(w, "www."@)) by {
        assert(w.subrange(0, 4) =~= "www."@);
    }
    assert(w.skip(4) =~= bare);
}

proof fn lemma_untrimmed(s: Seq<char>)
    requires
        s.len() > 0,
        !is_space_char(s[0]),
        !is_space_char(s[s.len() - 1]),
    ensures
        trim_spec(s) == s,
{
}

/// The four alias host names blocked together with `d`, unordered.
pub open spec fn variant_seqs(d: Seq<char>) -> Seq<Seq<char>> {
    seq![d, "www."@ + d, "m."@ + d, "app."@ + d]
}

/// A sequence of host names in lexicographic order.
pub open spec fn sorted_lex(s: Seq<Seq<char>>) -> bool {
    forall|i: int, j: int| 0 <= i < j < s.len() ==> lex_le(#[trigger] s[i], #[trigger] s[j])
}

proof fn lemma_sorted4(a: Seq<char>, b: Seq<char>, c: Seq<char>, d: Seq<char>)
    requires
        lex_le(a, b),
        lex_le(b, c),
        lex_le(c, d),
    ensures
        sorted_lex(seq![a, b, c, d]),
{
    lemma_lex_le_trans(a, b, c);
    lemma_lex_le_trans(a, c, d);
    lemma_lex_le_trans(b, c, d);
    let s = seq![a, b, c, d];
    assert forall|i: int, j: int| 0 <= i < j < s.len() implies lex_le(
        #[trigger] s[i],
        #[trigger] s[j],
    ) by {
        assert(s[0] == a && s[1] == b && s[2] == c && s[3] == d);
    }
}

proof fn lemma_same_elements4(u: Seq<Seq<char>>, v: Seq<Seq<char>>)
    requires
        u.len() == 4,
        v.len() == 4,
        v.contains(u[0]),
        v.contains(u[1]),
        v.contains(u[2]),
        v.contains(u[3]),
        u.contains(v[0]),
        u.contains(v[1]),
        u.contains(v[2]),
        u.contains(v[3]),
    ensures
        forall|x: Seq<char>| u.contains(x) <==> v.contains(x),
{
    assert forall|x: Seq<char>| u.contains(x) implies v.contains(x) by {
        let i = choose|i: int| 0 <= i < u.len() && u[i] == x;
        assert(i == 0 || i == 1 || i == 2 || i == 3);
    }
    assert forall|x: Seq<char>| v.contains(x) implies u.contains(x) by {
        let i = choose|i: int| 0 <= i < v.len() && v[i] == x;
        assert(i == 0 || i == 1 || i == 2 || i == 3);
    }
}

/// The alias host names for `d` — `d` itself and its `www.`, `m.` and
/// `app.` forms — in lexicographic order.
pub fn get_domain_variants(domain: &str) -> (r: Vec<String>)
    ensures
        r@.len() == 4,
        sorted_lex(views_of(r@)),
        forall|x: Seq<char>|
            views_of(r@).contains(x) <==> variant_seqs(domain@).contains(x),
{
    let d = domain.to_owned();
    let wd = "www.".to_owned().concat(domain);
    let md = "m.".to_owned().concat(domain);
    let ad = "app.".to_owned().concat(domain);
    proof {
        reveal_strlit("www.");
        reveal_strlit("m.");
        reveal_strlit("app.");
        assert(ad@[0] == 'a' && md@[0] == 'm' && wd@[0] == 'w');
        assert(lex_le(ad@, md@));
        assert(lex_le(md@, wd@));
        lemma_lex_le_total(d@, ad@);
        lemma_lex_le_total(d@, md@);
        lemma_lex_le_total(d@, wd@);
    }
    let ghost vs = variant_seqs(domain@);
    let mut r: Vec<String> = Vec::new();
    if str_lex_le(domain, ad.as_str()) {
        r.push(d);
        r.push(ad);
        r.push(md);
        r.push(wd);
        proof {
            let u = views_of(r@);
            assert(u =~= seq![domain@, "app."@ + domain@, "m."@ + domain@, "www."@ + domain@]);
            lemma_sorted4(u[0], u[1], u[2], u[3]);
            assert(vs.contains(u[0]) && vs.contains(u[1]) && vs.contains(u[2]) && vs.contains(
                u[3],
            ));
            assert(u.contains(vs[0]) && u.contains(vs[1]) && u.contains(vs[2]) && u.contains(
                vs[3],
            ));
            lemma_same_elements4(u, vs);
        }
    } else if str_lex_le(domain, md.as_str()) {
        r.push(ad);
        r.push(d);
        r.push(md);
        r.push(wd);
        proof {
            let u = views_of(r@);
            assert(u =~= seq!["app."@ + domain@, domain@, "m."@ + domain@, "www."@ + domain@]);
            lemma_sorted4(u[0], u[1], u[2], u[3]);
            assert(vs.contains(u[0]) && vs.contains(u[1]) && vs.contains(u[2]) && vs.contains(
                u[3],
            ));
            assert(u.contains(vs[0]) && u.contains(vs[1]) && u.contains(vs[2]) && u.contains(
                vs[3],
            ));
            lemma_same_elements4(u, vs);
        }
    } else if str_lex_le(domain, wd.as_str()) {
        r.push(ad);
        r.push(md);
        r.push(d);
        r.push(wd);
        proof {
            let u = views_of(r@);
            assert(u =~= seq!["app."@ + domain@, "m."@ + domain@, domain@, "www."@ + domain@]);
            lemma_sorted4(u[0], u[1], u[2], u[3]);
            assert(vs.contains(u[0]) && vs.contains(u[1]) && vs.contains(u[2]) && vs.contains(
                u[3],
            ));
            assert(u.contains(vs[0]) && u.contains(vs[1]) && u.contains(vs[2]) && u.contains(
                vs[3],
            ));
            lemma_same_elements4(u, vs);
        }
    } else {
        r.push(ad);
        r.push(md);
        r.push(wd);
        r.push(d);
        proof {
            let u = views_of(r@);
            assert(u =~= seq!["app."@ + domain@, "m."@ + domain@, "www."@ + domain@, domain@]);
            lemma_sorted4(u[0], u[1], u[2], u[3]);
            assert(vs.contains(u[0]) && vs.contains(u[1]) && vs.contains(u[2]) && vs.contains(
                u[3],
            ));
            assert(u.contains(vs[0]) && u.contains(vs[1]) && u.contains(vs[2]) && u.contains(
                vs[3],
            ));
            lemma_same_elements4(u, vs);
        }
    }
    r
}

} // verus!
