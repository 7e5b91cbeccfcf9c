//! Character-sequence utilities shared by the gemtext parser and the
//! crawl engine: whitespace classification, trimming, physical-line
//! splitting and whitespace tokenization, each as a spec function with a
//! verified executable counterpart.

use vstd::prelude::*;

verus! {

/// ASCII whitespace, as `char::is_ascii_whitespace` defines it.
pub open spec fn is_ascii_ws(c: char) -> bool {
    c == ' ' || c == '\t' || c == '\n' || c == '\u{c}' || c == '\r'
}

/// Unicode whitespace (the White_Space property), as `char::is_whitespace`
/// defines it.
pub open spec fn is_ws(c: char) -> bool {
    ||| is_ascii_ws(c)
    ||| c == '\u{b}'
    ||| c == '\u{85}'
    ||| c == '\u{a0}'
    ||| c == '\u{1680}'
    ||| (0x2000 <= c as u32 && c as u32 <= 0x200a)
    ||| c == '\u{2028}'
    ||| c == '\u{2029}'
    ||| c == '\u{202f}'
    ||| c == '\u{205f}'
    ||| c == '\u{3000}'
}

pub fn is_ascii_ws_exec(c: char) -> (r: bool)
    ensures
        r == is_ascii_ws(c),
{
    c == ' ' || c == '\t' || c == '\n' || c == '\u{c}' || c == '\r'
}

pub fn is_ws_exec(c: char) -> (r: bool)
    ensures
        r == is_ws(c),
{
    is_ascii_ws_exec(c) || c == '\u{b}' || c == '\u{85}' || c == '\u{a0}' || c == '\u{1680}' || (
    '\u{2000}' <= c && c <= '\u{200a}') || c == '\u{2028}' || c == '\u{2029}' || c == '\u{202f}'
        || c == '\u{205f}' || c == '\u{3000}'
}

/// What remains of `s` once every leading whitespace character is gone.
pub open spec fn trim_start(s: Seq<char>) -> Seq<char>
    decreases s.len(),
{
    if s.len() > 0 && is_ws(s[0]) {
        trim_start(s.drop_first())
    } else {
        s
    }
}

/// What remains of `s` once every trailing whitespace character is gone.
pub open spec fn trim_end(s: Seq<char>) -> Seq<char>
    decreases s.len(),
{
    if s.len() > 0 && is_ws(s.last()) {
        trim_end(s.drop_last())
    } else {
        s
    }
}

/// `s` with whitespace removed from both ends, as `str::trim` does.
pub open spec fn trim(s: Seq<char>) -> Seq<char> {
    trim_end(trim_start(s))
}

/// New string holding `s` with whitespace removed from both ends.
pub fn trim_str(s: &str) -> (r: String)
    ensures
        r@ == trim(s@),
{
    let n = s.unicode_len();
    proof {
        assert(s@.skip(0) =~= s@);
    }
    let mut i: usize = 0;
    while i < n && is_ws_exec(s.get_char(i))
        invariant
            n == s@.len(),
            i <= n,
            trim_start(s@) == trim_start(s@.skip(i as int)),
        decreases n - i,
    {
        proof {
            assert(s@.skip(i as int)[0] == s@[i as int]);
            assert(s@.skip(i as int).drop_first() =~= s@.skip(i as int + 1));
        }
        i = i + 1;
    }
    proof {
        if i < n {
            assert(s@.skip(i as int)[0] == s@[i as int]);
        }
        assert(trim_start(s@) =~= s@.subrange(i as int, n as int));
    }
    let mut j: usize = n;
    while j > i && is_ws_exec(s.get_char(j - 1))
        invariant
            n == s@.len(),
            i <= j <= n,
            trim_start(s@) == s@.subrange(i as int, n as int),
            trim(s@) == trim_end(s@.subrange(i as int, j as int)),
        decreases j,
    {
        proof {
            assert(s@.subrange(i as int, j as int).last() == s@[j as int - 1]);
            assert(s@.subrange(i as int, j as int).drop_last() =~= s@.subrange(
                i as int,
                j as int - 1,
            ));
        }
        j = j - 1;
    }
    proof {
        if j > i {
            assert(s@.subrange(i as int, j as int).last() == s@[j as int - 1]);
        }
        assert(trim(s@) =~= s@.subrange(i as int, j as int));
    }
    s.substring_char(i, j).to_owned()
}

/// New string holding `s` with whitespace removed from its end only,
/// as `str::trim_end` does.
pub fn trim_end_str(s: &str) -> (r: String)
    ensures
        r@ == trim_end(s@),
{
    let n = s.unicode_len();
    proof {
        assert(s@.subrange(0, n as int) =~= s@);
    }
    let mut j: usize = n;
    while j > 0 && is_ws_exec(s.get_char(j - 1))
        invariant
            n == s@.len(),
            j <= n,
            trim_end(s@) == trim_end(s@.subrange(0, j as int)),
        decreases j,
    {
        proof {
            assert(s@.subrange(0, j as int).last() == s@[j as int - 1]);
            assert(s@.subrange(0, j as int).drop_last() =~= s@.subrange(0, j as int - 1));
            assert(s@.subrange(0, n as int) =~= s@);
        }
        j = j - 1;
    }
    proof {
        if j > 0 {
            assert(s@.subrange(0, j as int).last() == s@[j as int - 1]);
        }
        assert(s@.subrange(0, n as int) =~= s@);
        assert(trim_end(s@) =~= s@.subrange(0, j as int));
    }
    s.substring_char(0, j).to_owned()
}

/// The views of a sequence of strings.
pub open spec fn strs_view(v: Seq<String>) -> Seq<Seq<char>> {
    v.map_values(|s: String| s@)
}

/// A physical line with a trailing carriage return removed, as `str::lines`
/// treats the text before each line feed.
pub open spec fn strip_cr(l: Seq<char>) -> Seq<char> {
    if l.len() > 0 && l.last() == '\r' {
        l.drop_last()
    } else {
        l
    }
}

/// The physical lines of `s` that remain when `cur` holds the characters
/// already read of the current line: each line feed ends a line, a final
/// fragment without one still counts, and an empty final fragment does
/// not.  Only a carriage return directly before a line feed is a line
/// ending; a bare one at the end of the input stays in the content, as
/// `str::lines` keeps it.
pub open spec fn lines_from(s: Seq<char>, cur: Seq<char>) -> Seq<Seq<char>>
    decreases s.len(),
{
    if s.len() == 0 {
        if cur.len() == 0 {
            Seq::empty()
        } else {
            seq![cur]
        }
    } else if s[0] == '\n' {
        seq![strip_cr(cur)] + lines_from(s.drop_first(), Seq::empty())
    } else {
        lines_from(s.drop_first(), cur.push(s[0]))
    }
}

/// The physical lines of `s`, as `str::lines` yields them.
pub open spec fn spec_lines(s: Seq<char>) -> Seq<Seq<char>> {
    lines_from(s, Seq::empty())
}

/// Splits a document into its physical lines.
pub fn split_lines(doc: &str) -> (r: Vec<String>)
    ensures
        strs_view(r@) == spec_lines(doc@),
{
    let n = doc.unicode_len();
    let mut out: Vec<String> = Vec::new();
    let mut i: usize = 0;
    let mut start: usize = 0;
    proof {
        assert(doc@.skip(0) =~= doc@);
        assert(doc@.subrange(0, 0) =~= Seq::<char>::empty());
        assert(strs_view(out@) + lines_from(doc@, Seq::empty()) =~= spec_lines(doc@));
    }
    while i < n
        invariant
            n == doc@.len(),
            start <= i <= n,
            spec_lines(doc@) == strs_view(out@) + lines_from(
                doc@.skip(i as int),
                doc@.subrange(start as int, i as int),
            ),
        decreases n - i,
    {
        let ghost cur = doc@.subrange(start as int, i as int);
        proof {
            assert(doc@.skip(i as int)[0] == doc@[i as int]);
            assert(doc@.skip(i as int).drop_first() =~= doc@.skip(i as int + 1));
        }
        let c = doc.get_char(i);
        if c == '\n' {
            let mut end: usize = i;
            if end > start && doc.get_char(end - 1) == '\r' {
                end = end - 1;
            }
            proof {
                if i > start && doc@[i as int - 1] == '\r' {
                    assert(cur.last() == doc@[i as int - 1]);
                    assert(cur.drop_last() =~= doc@.subrange(start as int, i as int - 1));
                }
                assert(strip_cr(cur) =~= doc@.subrange(start as int, end as int));
            }
            let piece = doc.substring_char(start, end).to_owned();
            let ghost out0 = out@;
            out.push(piece);
            proof {
                assert(out@ =~= out0.push(piece));
                assert(strs_view(out@) =~= strs_view(out0).push(piece@));
                assert(doc@.subrange(i as int + 1, i as int + 1) =~= Seq::<char>::empty());
                assert(strs_view(out0) + (seq![strip_cr(cur)] + lines_from(
                    doc@.skip(i as int + 1),
                    Seq::empty(),
                )) =~= strs_view(out@) + lines_from(doc@.skip(i as int + 1), Seq::empty()));
            }
            i = i + 1;
            start = i;
        } else {
            proof {
                assert(cur.push(doc@[i as int]) =~= doc@.subrange(start as int, i as int + 1));
            }
            i = i + 1;
        }
    }
    let ghost cur = doc@.subrange(start as int, i as int);
    if start < n {
        proof {
            assert(doc@.skip(n as int) =~= Seq::<char>::empty());
        }
        let piece = doc.substring_char(start, n).to_owned();
        let ghost out0 = out@;
        out.push(piece);
        proof {
            assert(out@ =~= out0.push(piece));
            assert(strs_view(out@) =~= strs_view(out0).push(piece@));
            assert(strs_view(out0) + seq![cur] =~= strs_view(out@));
        }
    } else {
        proof {
            assert(doc@.skip(i as int) =~= Seq::<char>::empty());
            assert(cur.len() == 0);
            assert(strs_view(out@) + lines_from(Seq::empty(), cur) =~= strs_view(out@));
        }
    }
    out
}

/// The maximal runs of non-whitespace characters still to come when `cur`
/// holds the characters already read of the current run.
pub open spec fn tokens_from(s: Seq<char>, cur: Seq<char>) -> Seq<Seq<char>>
    decreases s.len(),
{
    if s.len() == 0 {
        if cur.len() == 0 {
            Seq::empty()
        } else {
            seq![cur]
        }
    } else if is_ascii_ws(s[0]) {
        if cur.len() == 0 {
            tokens_from(s.drop_first(), cur)
        } else {
            seq![cur] + tokens_from(s.drop_first(), Seq::empty())
        }
    } else {
        tokens_from(s.drop_first(), cur.push(s[0]))
    }
}

/// The words of `s`, as `str::split_ascii_whitespace` yields them.
pub open spec fn split_ascii_ws(s: Seq<char>) -> Seq<Seq<char>> {
    tokens_from(s, Seq::empty())
}

/// Splits a string into its maximal runs of non-ASCII-whitespace characters.
pub fn split_ascii_ws_str(s: &str) -> (r: Vec<String>)
    ensures
        strs_view(r@) == split_ascii_ws(s@),
{
    let n = s.unicode_len();
    let mut out: Vec<String> = Vec::new();
    let mut i: usize = 0;
    let mut start: usize = 0;
    proof {
        assert(s@.skip(0) =~= s@);
        assert(s@.subrange(0, 0) =~= Seq::<char>::empty());
        assert(strs_view(out@) + tokens_from(s@, Seq::empty()) =~= split_ascii_ws(s@));
    }
    while i < n
        invariant
            n == s@.len(),
            start <= i <= n,
            split_ascii_ws(s@) == strs_view(out@) + tokens_from(
                s@.skip(i as int),
                s@.subrange(start as int, i as int),
            ),
        decreases n - i,
    {
        let ghost cur = s@.subrange(start as int, i as int);
        proof {
            assert(s@.skip(i as int)[0] == s@[i as int]);
            assert(s@.skip(i as int).drop_first() =~= s@.skip(i as int + 1));
        }
        let c = s.get_char(i);
        if is_ascii_ws_exec(c) {
            if i > start {
                let piece = s.substring_char(start, i).to_owned();
                let ghost out0 = out@;
                out.push(piece);
                proof {
                    assert(out@ =~= out0.push(piece));
                    assert(strs_view(out@) =~= strs_view(out0).push(piece@));
                    assert(s@.subrange(i as int + 1, i as int + 1) =~= Seq::<char>::empty());
                    assert(strs_view(out0) + (seq![cur] + tokens_from(
                        s@.skip(i as int + 1),
                        Seq::empty(),
                    )) =~= strs_view(out@) + tokens_from(s@.skip(i as int + 1), Seq::empty()));
                }
            } else {
                proof {
                    assert(cur =~= s@.subrange(i as int + 1, i as int + 1));
                }
            }
            i = i + 1;
            start = i;
        } else {
            proof {
                assert(cur.push(s@[i as int]) =~= s@.subrange(start as int, i as int + 1));
            }
            i = i + 1;
        }
    }
    let ghost cur = s@.subrange(start as int, i as int);
    proof {
        assert(s@.skip(n as int) =~= Seq::<char>::empty());
    }
    if start < n {
        let piece = s.substring_char(start, n).to_owned();
        let ghost out0 = out@;
        out.push(piece);
        proof {
            assert(out@ =~= out0.push(piece));
            assert(strs_view(out@) =~= strs_view(out0).push(piece@));
            assert(strs_view(out0) + seq![cur] =~= strs_view(out@));
        }
    } else {
        proof {
            assert(cur.len() == 0);
            assert(strs_view(out@) + tokens_from(Seq::empty(), cur) =~= strs_view(out@));
        }
    }
    out
}

/// The sequences of `parts` joined with a single space between them.
pub open spec fn join_sp(parts: Seq<Seq<char>>) -> Seq<char>
    decreases parts.len(),
{
    if parts.len() == 0 {
        Seq::empty()
    } else if parts.len() == 1 {
        parts[0]
    } else {
        parts[0] + seq![' '] + join_sp(parts.drop_first())
    }
}

/// Joins `parts[from..]` with a single space between the parts.
pub fn join_sp_from(parts: &Vec<String>, from: usize) -> (r: String)
    requires
        from <= parts@.len(),
    ensures
        r@ == join_sp(strs_view(parts@).skip(from as int)),
    decreases parts@.len() - from,
{
    proof {
        assert(strs_view(parts@).len() == parts@.len());
    }
    if from >= parts.len() {
        proof {
            assert(strs_view(parts@).skip(from as int) =~= Seq::<Seq<char>>::empty());
        }
        String::new()
    } else if from == parts.len() - 1 {
        proof {
            assert(strs_view(parts@).skip(from as int)[0] == parts@[from as int]@);
        }
        parts[from].clone()
    } else {
        let mut r = parts[from].clone();
        r.append(" ");
        let rest = join_sp_from(parts, from + 1);
        r.append(rest.as_str());
        proof {
            reveal_strlit(" ");
            assert((" ")@ =~= seq![' ']);
            let tail = strs_view(parts@).skip(from as int);
            assert(tail[0] == parts@[from as int]@);
            assert(tail.drop_first() =~= strs_view(parts@).skip(from as int + 1));
            assert(parts@[from as int]@ + seq![' '] + join_sp(tail.drop_first()) =~= r@);
        }
        r
    }
}

} // verus!
