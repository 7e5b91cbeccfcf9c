use gemcrawl::address::{assemble_address, resolve, AddrError, Address};
use gemcrawl::engine::{Crawler, DiscoverOutcome, Entry, UrlInfo};

fn addr(host: &str, port: u16, path: &str) -> Address {
    Address {
        host: host.to_string(),
        port,
        path: path.to_string(),
        query: None,
        fragment: None,
    }
}

#[test]
fn resolve_absolute() {
    let a = resolve(None, "gemini://example.org/docs").unwrap();
    assert_eq!("example.org", a.host);
    assert_eq!(1965, a.port);
    assert_eq!("/docs", a.path);
    assert_eq!("gemini://example.org:1965/docs", a.canon());
}

#[test]
fn resolve_keeps_explicit_port() {
    let a = resolve(None, "gemini://example.org:3000/").unwrap();
    assert_eq!(3000, a.port);
    assert_eq!("gemini://example.org:3000/", a.canon());
}

#[test]
fn resolve_relative_against_base() {
    let base = resolve(None, "gemini://example.org/dir/page").unwrap();
    let a = resolve(Some(&base), "/other").unwrap();
    assert_eq!("example.org", a.host);
    assert_eq!("/other", a.path);
    let b = resolve(Some(&base), "sibling").unwrap();
    assert_eq!("/dir/sibling", b.path);
}

#[test]
fn resolve_relative_without_base_fails() {
    assert_eq!(Err(AddrError::RelativeWithoutBase), resolve(None, "/foo"));
}

#[test]
fn resolve_wrong_scheme_fails() {
    assert_eq!(
        Err(AddrError::WrongScheme),
        resolve(None, "https://example.org/")
    );
}

#[test]
fn resolve_unparsable_fails() {
    assert_eq!(
        Err(AddrError::Unparsable),
        resolve(None, "gemini://exa mple.org/")
    );
}

#[test]
fn resolve_fragment_significant() {
    let a = resolve(None, "gemini://example.org/page?x=1#sec").unwrap();
    assert_eq!(Some("x=1".to_string()), a.query);
    assert_eq!(Some("sec".to_string()), a.fragment);
    assert_eq!("gemini://example.org:1965/page?x=1#sec", a.canon());
}

#[test]
fn assemble_rejects_missing_host() {
    let r = assemble_address(
        &"gemini".to_string(),
        None,
        None,
        "/p".to_string(),
        None,
        None,
    );
    assert_eq!(Err(AddrError::NoHost), r);
}

#[test]
fn url_info_new() {
    let info = UrlInfo::new("gemini://a:1965/".to_string());
    assert_eq!(vec!["gemini://a:1965/".to_string()], info.referred_from);
    assert!(!info.timed_out);
    assert!(!info.malformed_response);
    assert_eq!(0, info.response_code);
    assert_eq!("", info.metatext);
}

#[test]
fn dedup_single_entry_counts_discoveries() {
    let mut c = Crawler::new(None, 10);
    let r1 = c.discover(addr("h", 1965, "/"), "gemini://x:1965/".to_string());
    assert_eq!(DiscoverOutcome::Queued, r1);
    let r2 = c.discover(addr("h", 1965, "/"), "gemini://y:1965/".to_string());
    assert_eq!(DiscoverOutcome::Known, r2);
    let r3 = c.discover(addr("h", 1965, "/"), "gemini://x:1965/".to_string());
    assert_eq!(DiscoverOutcome::Known, r3);
    assert_eq!(1, c.entry_count());
    assert_eq!(1, c.frontier_len());
    let table = c.entry_table();
    assert_eq!("gemini://h:1965/", table[0].key);
    assert_eq!(3, table[0].info.referred_from.len());
}

#[test]
fn bounded_table_drops_overflow() {
    let mut c = Crawler::new(Some(2), 10);
    assert_eq!(
        DiscoverOutcome::Queued,
        c.discover(addr("a", 1965, "/"), "r".to_string())
    );
    assert_eq!(
        DiscoverOutcome::Queued,
        c.discover(addr("b", 1965, "/"), "r".to_string())
    );
    assert_eq!(
        DiscoverOutcome::Dropped,
        c.discover(addr("c", 1965, "/"), "r".to_string())
    );
    assert_eq!(2, c.entry_count());
    // A known address still gains referrers at the bound.
    assert_eq!(
        DiscoverOutcome::Known,
        c.discover(addr("a", 1965, "/"), "r2".to_string())
    );
    assert_eq!(2, c.entry_count());
}

#[test]
fn frontier_is_a_stack() {
    let mut c = Crawler::new(None, 10);
    c.discover(addr("a", 1965, "/"), "r".to_string());
    c.discover(addr("b", 1965, "/"), "r".to_string());
    let first = c.pop_next().unwrap();
    assert_eq!("gemini://b:1965/", first.key);
    let second = c.pop_next().unwrap();
    assert_eq!("gemini://a:1965/", second.key);
    assert!(c.pop_next().is_none());
}

#[test]
fn handle_fetch_success_extracts_links() {
    let mut c = Crawler::new(None, 10);
    c.discover(addr("h", 1965, "/"), "seed".to_string());
    let t = c.pop_next().unwrap();
    let body = b"20 text/gemini\r\n# Welcome\n=> /next Next page\n=> gemini://other.example/ O\n";
    c.handle_fetch(&t.addr, &t.key, body);
    let table = c.entry_table();
    assert_eq!(3, table.len());
    assert_eq!(20, table[0].info.response_code);
    assert_eq!("text/gemini\r", table[0].info.metatext);
    assert_eq!("gemini://h:1965/next", table[1].key);
    assert_eq!("gemini://other.example:1965/", table[2].key);
    assert_eq!(vec!["gemini://h:1965/".to_string()], table[1].info.referred_from);
    assert_eq!(2, c.frontier_len());
}

#[test]
fn handle_fetch_non_gemtext_records_only() {
    let mut c = Crawler::new(None, 10);
    c.discover(addr("h", 1965, "/"), "seed".to_string());
    let t = c.pop_next().unwrap();
    c.handle_fetch(&t.addr, &t.key, b"20 text/plain\n=> /ignored\n");
    assert_eq!(1, c.entry_count());
    assert_eq!(20, c.entry_table()[0].info.response_code);
    assert_eq!(0, c.frontier_len());
}

#[test]
fn handle_fetch_redirect_records_only() {
    let mut c = Crawler::new(None, 10);
    c.discover(addr("h", 1965, "/"), "seed".to_string());
    let t = c.pop_next().unwrap();
    c.handle_fetch(&t.addr, &t.key, b"31 gemini://elsewhere.example/\n");
    assert_eq!(1, c.entry_count());
    assert_eq!(31, c.entry_table()[0].info.response_code);
    assert_eq!(0, c.frontier_len());
}

#[test]
fn handle_fetch_invalid_utf8_marks_malformed() {
    let mut c = Crawler::new(None, 10);
    c.discover(addr("h", 1965, "/"), "seed".to_string());
    let t = c.pop_next().unwrap();
    c.handle_fetch(&t.addr, &t.key, &[0xff, 0xfe, 0x20]);
    let table = c.entry_table();
    assert!(table[0].info.malformed_response);
    assert_eq!(0, table[0].info.response_code);
}

#[test]
fn handle_fetch_short_header_marks_malformed() {
    let mut c = Crawler::new(None, 10);
    c.discover(addr("h", 1965, "/"), "seed".to_string());
    let t = c.pop_next().unwrap();
    c.handle_fetch(&t.addr, &t.key, b"20");
    assert!(c.entry_table()[0].info.malformed_response);
}

#[test]
fn handle_fetch_non_numeric_code_marks_malformed() {
    let mut c = Crawler::new(None, 10);
    c.discover(addr("h", 1965, "/"), "seed".to_string());
    let t = c.pop_next().unwrap();
    c.handle_fetch(&t.addr, &t.key, b"ab meta\n");
    assert!(c.entry_table()[0].info.malformed_response);
}

#[test]
fn handle_fetch_empty_response_marks_malformed() {
    // An empty response has no header that could be split into a code
    // and remainder, so the entry is marked malformed.
    let mut c = Crawler::new(None, 10);
    c.discover(addr("h", 1965, "/"), "seed".to_string());
    let t = c.pop_next().unwrap();
    c.handle_fetch(&t.addr, &t.key, b"");
    let table = c.entry_table();
    assert!(table[0].info.malformed_response);
    assert_eq!(0, table[0].info.response_code);
}

#[test]
fn mark_timed_out_records_flag() {
    let mut c = Crawler::new(None, 10);
    c.discover(addr("h", 1965, "/"), "seed".to_string());
    let t = c.pop_next().unwrap();
    c.mark_timed_out(&t.key);
    assert!(c.entry_table()[0].info.timed_out);
}

#[test]
fn bounded_fetch_never_exceeds_bound() {
    let mut c = Crawler::new(Some(2), 10);
    c.discover(addr("h", 1965, "/"), "seed".to_string());
    let t = c.pop_next().unwrap();
    let body = b"20 text/gemini\n=> /a\n=> /b\n=> /c\n=> /d\n";
    c.handle_fetch(&t.addr, &t.key, body);
    assert_eq!(2, c.entry_count());
}

#[test]
fn resume_skips_fetched_entries() {
    let fetched = Entry {
        key: "gemini://done.example:1965/".to_string(),
        info: UrlInfo {
            referred_from: vec!["r".to_string()],
            timed_out: false,
            malformed_response: false,
            response_code: 20,
            metatext: "text/gemini".to_string(),
        },
    };
    let pending = Entry {
        key: "gemini://todo.example:1965/".to_string(),
        info: UrlInfo::new("r".to_string()),
    };
    let mut c = Crawler::from_entries(vec![fetched, pending], None, 10);
    assert_eq!(2, c.entry_count());
    assert_eq!(0, c.frontier_len());
    c.requeue_unfetched();
    assert_eq!(1, c.frontier_len());
    let t = c.pop_next().unwrap();
    assert_eq!("gemini://todo.example:1965/", t.key);
}

#[test]
fn resume_skips_zero_code_with_recorded_meta() {
    // A server may answer with a literal "00" code, which collides with
    // the never-fetched sentinel; the recorded meta text tells the two
    // apart, so such an entry is not refetched on resume.
    let odd = Entry {
        key: "gemini://odd.example:1965/".to_string(),
        info: UrlInfo {
            referred_from: vec!["r".to_string()],
            timed_out: false,
            malformed_response: false,
            response_code: 0,
            metatext: "some prompt".to_string(),
        },
    };
    let mut c = Crawler::from_entries(vec![odd], None, 10);
    c.requeue_unfetched();
    assert_eq!(0, c.frontier_len());
}

#[test]
fn checkpoint_load_first_entry_wins() {
    let first = Entry {
        key: "gemini://a:1965/".to_string(),
        info: UrlInfo::new("one".to_string()),
    };
    let second = Entry {
        key: "gemini://a:1965/".to_string(),
        info: UrlInfo::new("two".to_string()),
    };
    let c = Crawler::from_entries(vec![first, second], None, 10);
    assert_eq!(1, c.entry_count());
    assert_eq!(
        vec!["one".to_string()],
        c.entry_table()[0].info.referred_from
    );
}

#[test]
fn rediscovered_fetched_address_not_requeued() {
    let mut c = Crawler::new(None, 10);
    c.discover(addr("h", 1965, "/"), "seed".to_string());
    let t = c.pop_next().unwrap();
    // The fetched page links back to itself.
    c.handle_fetch(&t.addr, &t.key, b"20 text/gemini\n=> /\n");
    let table = c.entry_table();
    assert_eq!(1, table.len());
    assert_eq!(20, table[0].info.response_code);
    assert_eq!(
        vec!["seed".to_string(), "gemini://h:1965/".to_string()],
        table[0].info.referred_from
    );
    assert_eq!(0, c.frontier_len());
}

#[test]
fn body_bytes_read_as_latin1() {
    // The body is decoded byte-for-byte, not as UTF-8: a two-byte UTF-8
    // sequence in a link target becomes two characters, which the URL
    // parser then percent-encodes individually.
    let mut c = Crawler::new(None, 10);
    c.discover(addr("h", 1965, "/"), "seed".to_string());
    let t = c.pop_next().unwrap();
    let body = b"20 text/gemini\n=> /caf\xc3\xa9\n";
    c.handle_fetch(&t.addr, &t.key, body);
    let table = c.entry_table();
    assert_eq!(2, table.len());
    assert_eq!("gemini://h:1965/caf%C3%83%C2%A9", table[1].key);
}

#[test]
fn membership_checks() {
    let mut c = Crawler::new(None, 10);
    c.discover(addr("h", 1965, "/"), "seed".to_string());
    let key = "gemini://h:1965/".to_string();
    assert!(c.contains_key(&key));
    assert!(c.frontier_contains(&key));
    let t = c.pop_next().unwrap();
    assert!(!c.frontier_contains(&t.key));
    assert!(!c.contains_key(&"gemini://absent:1965/".to_string()));
}

#[test]
fn tick_save_cadence() {
    let mut c = Crawler::new(None, 3);
    assert!(!c.tick_save());
    assert!(!c.tick_save());
    assert!(c.tick_save());
    assert!(!c.tick_save());
    assert!(!c.tick_save());
    assert!(c.tick_save());
}
