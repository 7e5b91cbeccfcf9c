//! Address resolution: a possibly-relative link string is resolved
//! against a base address into an absolute gemini address with an
//! explicit port, or rejected.  Parsing and joining are done by the
//! `url` crate behind trusted wrappers whose contracts speak of named
//! results — each a function of the input string alone — so that
//! `resolve`'s outcome is pinned case by case: the scheme check, the
//! port defaulting and the canonical string form are verified.
//!
//! The model deliberately omits URL userinfo: it is absent from the
//! address data model, and so from the canonical form and the dedup key.

use vstd::prelude::*;

verus! {

#[verifier::external_type_specification]
#[verifier::external_body]
pub struct ExUrl(url::Url);

/// The view of an optional string.
pub open spec fn opt_view(o: Option<String>) -> Option<Seq<char>> {
    match o {
        Some(s) => Some(s@),
        None => None,
    }
}

/// Names for what the `url` crate computes from a string on its own.
/// Each is a function of its arguments alone: the same string always
/// parses the same way, whatever the process or machine.
///
/// True when `url::Url::parse` accepts the string as an absolute URL.
pub uninterp spec fn url_parses(s: Seq<char>) -> bool;

/// True when `url::Url::parse` rejects the string exactly with
/// ParseError::RelativeUrlWithoutBase.
pub uninterp spec fn url_relative(s: Seq<char>) -> bool;

/// The scheme `url::Url::scheme` reads out of the parsed string.
pub uninterp spec fn url_scheme_of(s: Seq<char>) -> Seq<char>;

/// The host `url::Url::host_str` reads out of the parsed string.
pub uninterp spec fn url_host_of(s: Seq<char>) -> Option<Seq<char>>;

/// The explicit port `url::Url::port` reads out of the parsed string;
/// the crate knows no default for the gemini scheme.
pub uninterp spec fn url_port_of(s: Seq<char>) -> Option<u16>;

/// The path `url::Url::path` reads out of the parsed string.
pub uninterp spec fn url_path_of(s: Seq<char>) -> Seq<char>;

/// The query `url::Url::query` reads out of the parsed string.
pub uninterp spec fn url_query_of(s: Seq<char>) -> Option<Seq<char>>;

/// The fragment `url::Url::fragment` reads out of the parsed string.
pub uninterp spec fn url_fragment_of(s: Seq<char>) -> Option<Seq<char>>;

/// The serialization of `url::Url::join(rel)` against the URL parsed
/// from `base`; nothing when the base does not parse absolutely or the
/// join fails.
pub uninterp spec fn url_join_str(base: Seq<char>, rel: Seq<char>) -> Option<Seq<char>>;

/// The plain parts the `url` crate reads out of one absolute URL.
pub struct UrlParts {
    pub scheme: String,
    pub host: Option<String>,
    pub port: Option<u16>,
    pub path: String,
    pub query: Option<String>,
    pub fragment: Option<String>,
}

/// What `url::Url::parse` reported for an input on its own.
enum AbsParse {
    /// The input is an absolute URL, read off into its parts.
    Parsed(UrlParts),
    /// The input is relative and could only be resolved against a base.
    RelativeNoBase,
    /// The input cannot be parsed at all.
    Failed,
}

/// Relies on url::Url::parse, and on the accessors scheme, host_str,
/// port, path, query and fragment to turn the opaque URL into plain
/// values: which absolute URL a string parses to is a function of the
/// string alone, named above.  ParseError::RelativeUrlWithoutBase is
/// told apart from every other failure.
#[verifier::external_body]
fn parse_absolute(s: &str) -> (r: AbsParse)
    ensures
        match r {
            AbsParse::Parsed(p) => {
                &&& url_parses(s@)
                &&& !url_relative(s@)
                &&& p.scheme@ == url_scheme_of(s@)
                &&& opt_view(p.host) == url_host_of(s@)
                &&& p.port == url_port_of(s@)
                &&& p.path@ == url_path_of(s@)
                &&& opt_view(p.query) == url_query_of(s@)
                &&& opt_view(p.fragment) == url_fragment_of(s@)
            },
            AbsParse::RelativeNoBase => !url_parses(s@) && url_relative(s@),
            AbsParse::Failed => !url_parses(s@) && !url_relative(s@),
        },
{
    match url::Url::parse(s) {
        Ok(u) => AbsParse::Parsed(UrlParts {
            scheme: u.scheme().to_owned(),
            host: u.host_str().map(|h| h.to_owned()),
            port: u.port(),
            path: u.path().to_owned(),
            query: u.query().map(|q| q.to_owned()),
            fragment: u.fragment().map(|f| f.to_owned()),
        }),
        Err(url::ParseError::RelativeUrlWithoutBase) => AbsParse::RelativeNoBase,
        Err(_) => AbsParse::Failed,
    }
}

/// Relies on url::Url::join (with url::Url::parse for the base and
/// Url::as_str for the result): which URL a string joins to against a
/// base string is a function of the two strings alone, named above.
#[verifier::external_body]
fn join_url_str(base: &str, rel: &str) -> (r: Option<String>)
    ensures
        match r {
            Some(j) => url_join_str(base@, rel@) == Some(j@),
            None => url_join_str(base@, rel@) is None,
        },
{
    match url::Url::parse(base) {
        Ok(b) => match b.join(rel) {
            Ok(u) => Some(u.as_str().to_owned()),
            Err(_) => None,
        },
        Err(_) => None,
    }
}

/// The crawled protocol's scheme.
pub open spec fn gemini_scheme() -> Seq<char> {
    seq!['g', 'e', 'm', 'i', 'n', 'i']
}

/// The crawled protocol's default port.
pub const DEFAULT_PORT: u16 = 1965;

/// Why a link string was rejected.
#[derive(Debug, PartialEq, Eq, Clone, Copy)]
pub enum AddrError {
    /// The string parses as neither an absolute nor a relative URL.
    Unparsable,
    /// The string is relative and no base address was supplied.
    RelativeWithoutBase,
    /// The resolved URL's scheme is not the protocol's own.
    WrongScheme,
    /// The resolved URL has no host.
    NoHost,
}

/// An absolute gemini address with an explicit port.  Construction goes
/// through `resolve` or `assemble_address`, which reject any URL that is
/// not a gemini URL with a host, and default the port when it is absent.
#[derive(Debug, PartialEq, Eq)]
pub struct Address {
    pub host: String,
    pub port: u16,
    pub path: String,
    pub query: Option<String>,
    pub fragment: Option<String>,
}

/// Mathematical model of `Address`.
pub struct AddressV {
    pub host: Seq<char>,
    pub port: u16,
    pub path: Seq<char>,
    pub query: Option<Seq<char>>,
    pub fragment: Option<Seq<char>>,
}

impl View for Address {
    type V = AddressV;

    open spec fn view(&self) -> AddressV {
        AddressV {
            host: self.host@,
            port: self.port,
            path: self.path@,
            query: opt_view(self.query),
            fragment: opt_view(self.fragment),
        }
    }
}

/// The decimal digit character for `d`.
pub open spec fn dec_digit(d: int) -> char {
    ((0x30 + d) as u32) as char
}

/// The decimal digit characters of `n`, most significant first.
pub open spec fn dec_str(n: int) -> Seq<char>
    decreases n,
{
    if n < 10 {
        seq![dec_digit(n)]
    } else {
        dec_str(n / 10).push(dec_digit(n % 10))
    }
}

/// The literal holding the decimal digit `d`.
fn digit_str(d: u16) -> (r: &'static str)
    requires
        d < 10,
    ensures
        r@ == seq![dec_digit(d as int)],
{
    let r: &'static str = if d == 0 {
        "0"
    } else if d == 1 {
        "1"
    } else if d == 2 {
        "2"
    } else if d == 3 {
        "3"
    } else if d == 4 {
        "4"
    } else if d == 5 {
        "5"
    } else if d == 6 {
        "6"
    } else if d == 7 {
        "7"
    } else if d == 8 {
        "8"
    } else {
        "9"
    };
    proof {
        reveal_strlit("0");
        reveal_strlit("1");
        reveal_strlit("2");
        reveal_strlit("3");
        reveal_strlit("4");
        reveal_strlit("5");
        reveal_strlit("6");
        reveal_strlit("7");
        reveal_strlit("8");
        reveal_strlit("9");
        assert(r@ =~= seq![dec_digit(d as int)]);
    }
    r
}

/// Appends the decimal form of `n` to `out`.
fn push_decimal(out: &mut String, n: u16)
    ensures
        final(out)@ == old(out)@ + dec_str(n as int),
    decreases n,
{
    if n < 10 {
        let d = digit_str(n);
        out.append(d);
        proof {
            assert(out@ =~= old(out)@ + dec_str(n as int));
        }
    } else {
        push_decimal(out, n / 10);
        let d = digit_str(n % 10);
        out.append(d);
        proof {
            assert((n / 10) as int == (n as int) / 10);
            assert((n % 10) as int == (n as int) % 10);
            assert(out@ =~= old(out)@ + dec_str(n as int));
        }
    }
}

/// The canonical string form of an address: scheme, host, explicit
/// port, path, and the query and fragment when present.  This is the
/// dedup key and the request line; fragments stay significant for
/// dedup, and userinfo does not exist in the model.
pub open spec fn canon_of(a: AddressV) -> Seq<char> {
    gemini_scheme() + seq![':', '/', '/'] + a.host + seq![':'] + dec_str(a.port as int) + a.path
        + (match a.query {
        Some(q) => seq!['?'] + q,
        None => Seq::<char>::empty(),
    }) + (match a.fragment {
        Some(f) => seq!['#'] + f,
        None => Seq::<char>::empty(),
    })
}

impl Address {
    /// The canonical string form of this address.
    pub open spec fn canon_spec(&self) -> Seq<char> {
        canon_of(self@)
    }

    /// Renders the canonical string form.
    pub fn canon(&self) -> (r: String)
        ensures
            r@ == self.canon_spec(),
    {
        let mut out = ("gemini://").to_owned();
        proof {
            reveal_strlit("gemini://");
            assert(out@ =~= gemini_scheme() + seq![':', '/', '/']);
        }
        out.append(self.host.as_str());
        out.append(":");
        proof {
            reveal_strlit(":");
            assert((":")@ =~= seq![':']);
        }
        push_decimal(&mut out, self.port);
        out.append(self.path.as_str());
        match &self.query {
            Some(q) => {
                out.append("?");
                out.append(q.as_str());
                proof {
                    reveal_strlit("?");
                    assert(("?")@ =~= seq!['?']);
                }
            },
            None => {},
        }
        match &self.fragment {
            Some(f) => {
                out.append("#");
                out.append(f.as_str());
                proof {
                    reveal_strlit("#");
                    assert(("#")@ =~= seq!['#']);
                }
            },
            None => {},
        }
        proof {
            assert(out@ =~= self.canon_spec());
        }
        out
    }
}

/// The view of a resolution result.
pub open spec fn res_view(r: Result<Address, AddrError>) -> Result<AddressV, AddrError> {
    match r {
        Ok(a) => Ok(a@),
        Err(e) => Err(e),
    }
}

/// What building an address from parsed URL parts yields: any scheme
/// but gemini is rejected, a missing host is rejected, and a missing
/// port is defaulted, an explicit one never overwritten.
pub open spec fn assemble_spec(
    scheme: Seq<char>,
    host: Option<Seq<char>>,
    port: Option<u16>,
    path: Seq<char>,
    query: Option<Seq<char>>,
    fragment: Option<Seq<char>>,
) -> Result<AddressV, AddrError> {
    if scheme != gemini_scheme() {
        Err(AddrError::WrongScheme)
    } else {
        match host {
            None => Err(AddrError::NoHost),
            Some(h) => Ok(
                AddressV {
                    host: h,
                    port: match port {
                        Some(p) => p,
                        None => DEFAULT_PORT,
                    },
                    path,
                    query,
                    fragment,
                },
            ),
        }
    }
}

/// What resolving a link string against an optional base yields, case
/// by case over the named outcomes of the `url` crate: an absolute
/// parse is used as it stands, whatever the base; only the
/// relative-without-base failure falls back to joining against the
/// base, and any other failure is fatal.
pub open spec fn resolve_spec(base: Option<AddressV>, s: Seq<char>) -> Result<
    AddressV,
    AddrError,
> {
    if url_parses(s) {
        assemble_spec(
            url_scheme_of(s),
            url_host_of(s),
            url_port_of(s),
            url_path_of(s),
            url_query_of(s),
            url_fragment_of(s),
        )
    } else if !url_relative(s) {
        Err(AddrError::Unparsable)
    } else {
        match base {
            None => Err(AddrError::RelativeWithoutBase),
            Some(b) => match url_join_str(canon_of(b), s) {
                None => Err(AddrError::Unparsable),
                Some(js) => if url_parses(js) {
                    assemble_spec(
                        url_scheme_of(js),
                        url_host_of(js),
                        url_port_of(js),
                        url_path_of(js),
                        url_query_of(js),
                        url_fragment_of(js),
                    )
                } else {
                    Err(AddrError::Unparsable)
                },
            },
        }
    }
}

/// The view of an optional borrowed address.
pub open spec fn opt_addr_view(base: Option<&Address>) -> Option<AddressV> {
    match base {
        Some(b) => Some(b@),
        None => None,
    }
}

/// Builds an `Address` out of the parts the `url` crate read from a
/// URL: rejects any scheme but gemini, rejects a missing host, and
/// defaults a missing port, never overwriting an explicit one.
pub fn assemble_address(
    scheme: &String,
    host: Option<String>,
    port: Option<u16>,
    path: String,
    query: Option<String>,
    fragment: Option<String>,
) -> (r: Result<Address, AddrError>)
    ensures
        res_view(r) == assemble_spec(
            scheme@,
            opt_view(host),
            port,
            path@,
            opt_view(query),
            opt_view(fragment),
        ),
{
    let gem = ("gemini").to_owned();
    proof {
        reveal_strlit("gemini");
        assert(gem@ =~= gemini_scheme());
    }
    if !scheme.eq(&gem) {
        return Err(AddrError::WrongScheme);
    }
    match host {
        None => Err(AddrError::NoHost),
        Some(h) => {
            let p = match port {
                Some(p) => p,
                None => DEFAULT_PORT,
            };
            let a = Address { host: h, port: p, path, query, fragment };
            proof {
                assert(res_view(Ok::<Address, AddrError>(a)) == assemble_spec(
                    scheme@,
                    opt_view(Some(a.host)),
                    port,
                    path@,
                    opt_view(query),
                    opt_view(fragment),
                ));
            }
            Ok(a)
        },
    }
}

/// Resolves a possibly-relative link string against an optional base
/// address.  The string is first parsed as an absolute URL; only when
/// that fails specifically because the string is relative, and a base
/// is present, is it joined against the base.  The outcome is exactly
/// `resolve_spec` over the named results of the `url` crate: errors
/// come if and only if their case holds, and an absolute input resolves
/// the same way whatever the base.
pub fn resolve(base: Option<&Address>, raw: &str) -> (r: Result<Address, AddrError>)
    ensures
        res_view(r) == resolve_spec(opt_addr_view(base), raw@),
{
    match parse_absolute(raw) {
        AbsParse::Parsed(p) => assemble_address(&p.scheme, p.host, p.port, p.path, p.query, p.fragment),
        AbsParse::Failed => Err(AddrError::Unparsable),
        AbsParse::RelativeNoBase => match base {
            None => Err(AddrError::RelativeWithoutBase),
            Some(b) => {
                let bs = b.canon();
                match join_url_str(bs.as_str(), raw) {
                    None => Err(AddrError::Unparsable),
                    Some(js) => match parse_absolute(js.as_str()) {
                        AbsParse::Parsed(p) => assemble_address(
                            &p.scheme,
                            p.host,
                            p.port,
                            p.path,
                            p.query,
                            p.fragment,
                        ),
                        _ => Err(AddrError::Unparsable),
                    },
                }
            },
        },
    }
}

} // verus!
