//! The gemtext line format: a document is a sequence of physical lines,
//! each line one node, except that a pair of ``` toggle lines encloses a
//! single preformatted node.  `parse` and `render` are verified against
//! the spec functions `spec_parse` and `spec_render`.

use vstd::prelude::*;

use crate::strutil::{
    is_ascii_ws, is_ws, trim, trim_end, trim_start, strip_cr, lines_from, spec_lines, tokens_from,
    split_ascii_ws, join_sp, strs_view, trim_str, trim_end_str, split_lines, split_ascii_ws_str,
    join_sp_from,
};

verus! {

/// Mathematical model of one document node.
pub enum NodeV {
    Text(Seq<char>),
    Link { to: Seq<char>, name: Option<Seq<char>> },
    Preformatted(Seq<char>),
    Heading { level: u8, body: Seq<char> },
    ListItem(Seq<char>),
    Quote(Seq<char>),
}

/// Individual nodes of a document. Each node corresponds to one line of
/// the file, except `Preformatted`, which corresponds to a fenced block.
#[derive(Debug, PartialEq, Eq, Clone)]
pub enum Node {
    /// Any line that matches no other rule; the most common line kind.
    Text(String),
    /// A line beginning with `=>`: a link with a target and an optional
    /// user-friendly name.
    Link { to: String, name: Option<String> },
    /// The body of a block fenced by two ``` toggle lines, kept raw.
    Preformatted(String),
    /// A line beginning with one, two or three `#` characters.
    Heading { level: u8, body: String },
    /// A line beginning with `*`: an unordered list item.
    ListItem(String),
    /// A line beginning with `>`: a quotation.
    Quote(String),
}

impl View for Node {
    type V = NodeV;

    open spec fn view(&self) -> NodeV {
        match self {
            Node::Text(b) => NodeV::Text(b@),
            Node::Link { to, name } => NodeV::Link {
                to: to@,
                name: match name {
                    Some(nm) => Some(nm@),
                    None => None,
                },
            },
            Node::Preformatted(b) => NodeV::Preformatted(b@),
            Node::Heading { level, body } => NodeV::Heading { level: *level, body: body@ },
            Node::ListItem(b) => NodeV::ListItem(b@),
            Node::Quote(b) => NodeV::Quote(b@),
        }
    }
}

/// The models of a sequence of nodes.
pub open spec fn nodes_view(ns: Seq<Node>) -> Seq<NodeV> {
    ns.map_values(|n: Node| n@)
}

impl Node {
    /// An empty text line.
    pub fn blank() -> (r: Node)
        ensures
            r@ == NodeV::Text(Seq::<char>::empty()),
    {
        Node::Text(String::new())
    }
}

/// True when `p` is a prefix of `s`.
pub open spec fn has_prefix(s: Seq<char>, p: Seq<char>) -> bool {
    p.len() <= s.len() && s.take(p.len() as int) == p
}

/// The nodes a single line outside a preformatted block yields: one for
/// most lines, none for a link line without a target.
pub open spec fn classify(l: Seq<char>) -> Seq<NodeV> {
    if l.len() > 0 && l[0] == '>' {
        seq![NodeV::Quote(trim(l.skip(1)))]
    } else if l.len() > 0 && l[0] == '*' {
        seq![NodeV::ListItem(trim(l.skip(1)))]
    } else if has_prefix(l, seq!['#', '#', '#']) {
        seq![NodeV::Heading { level: 3, body: trim(l.skip(3)) }]
    } else if has_prefix(l, seq!['#', '#']) {
        seq![NodeV::Heading { level: 2, body: trim(l.skip(2)) }]
    } else if l.len() > 0 && l[0] == '#' {
        seq![NodeV::Heading { level: 1, body: trim(l.skip(1)) }]
    } else if has_prefix(l, seq!['=', '>']) {
        let toks = split_ascii_ws(l.skip(2));
        if toks.len() == 0 {
            Seq::empty()
        } else if toks.len() == 1 {
            seq![NodeV::Link { to: trim(toks[0]), name: None }]
        } else {
            seq![NodeV::Link { to: trim(toks[0]), name: Some(trim(join_sp(toks.skip(1)))) }]
        }
    } else {
        seq![NodeV::Text(l)]
    }
}

/// The targets of the link nodes among `ns`, in document order.
pub open spec fn link_targets(ns: Seq<NodeV>) -> Seq<Seq<char>>
    decreases ns.len(),
{
    if ns.len() == 0 {
        Seq::empty()
    } else {
        (match ns[0] {
            NodeV::Link { to, name: _ } => seq![to],
            _ => Seq::<Seq<char>>::empty(),
        }) + link_targets(ns.drop_first())
    }
}

/// True when the line's first character is `c`.
fn first_char_is(s: &str, c: char) -> (r: bool)
    ensures
        r == (s@.len() > 0 && s@[0] == c),
{
    s.unicode_len() > 0 && s.get_char(0) == c
}

/// True when the line's first two characters are `c0` then `c1`.
fn starts_with2(s: &str, c0: char, c1: char) -> (r: bool)
    ensures
        r == has_prefix(s@, seq![c0, c1]),
{
    let r = s.unicode_len() >= 2 && s.get_char(0) == c0 && s.get_char(1) == c1;
    proof {
        if r {
            assert(s@.take(2) =~= seq![c0, c1]);
        } else if s@.len() >= 2 {
            assert(s@.take(2)[0] == s@[0]);
            assert(s@.take(2)[1] == s@[1]);
            assert(seq![c0, c1][0] == c0);
            assert(seq![c0, c1][1] == c1);
        }
    }
    r
}

/// True when the line's first three characters are `c0`, `c1`, `c2`.
fn starts_with3(s: &str, c0: char, c1: char, c2: char) -> (r: bool)
    ensures
        r == has_prefix(s@, seq![c0, c1, c2]),
{
    let r = s.unicode_len() >= 3 && s.get_char(0) == c0 && s.get_char(1) == c1 && s.get_char(2)
        == c2;
    proof {
        if r {
            assert(s@.take(3) =~= seq![c0, c1, c2]);
        } else if s@.len() >= 3 {
            assert(s@.take(3)[0] == s@[0]);
            assert(s@.take(3)[1] == s@[1]);
            assert(s@.take(3)[2] == s@[2]);
            assert(seq![c0, c1, c2][0] == c0);
            assert(seq![c0, c1, c2][1] == c1);
            assert(seq![c0, c1, c2][2] == c2);
        }
    }
    r
}

/// Classifies one line outside a preformatted block.
fn classify_line(line: &str) -> (r: Option<Node>)
    ensures
        match r {
            Some(n) => classify(line@) == seq![n@],
            None => classify(line@) == Seq::<NodeV>::empty(),
        },
{
    let n = line.unicode_len();
    if first_char_is(line, '>') {
        proof {
            assert(line@.subrange(1, n as int) =~= line@.skip(1));
        }
        let body = trim_str(line.substring_char(1, n));
        let node = Node::Quote(body);
        proof {
            assert(classify(line@) =~= seq![node@]);
        }
        Some(node)
    } else if first_char_is(line, '*') {
        proof {
            assert(line@.subrange(1, n as int) =~= line@.skip(1));
        }
        let body = trim_str(line.substring_char(1, n));
        let node = Node::ListItem(body);
        proof {
            assert(classify(line@) =~= seq![node@]);
        }
        Some(node)
    } else if starts_with3(line, '#', '#', '#') {
        proof {
            assert(line@.subrange(3, n as int) =~= line@.skip(3));
        }
        let body = trim_str(line.substring_char(3, n));
        let node = Node::Heading { level: 3, body };
        proof {
            assert(classify(line@) =~= seq![node@]);
        }
        Some(node)
    } else if starts_with2(line, '#', '#') {
        proof {
            assert(line@.subrange(2, n as int) =~= line@.skip(2));
        }
        let body = trim_str(line.substring_char(2, n));
        let node = Node::Heading { level: 2, body };
        proof {
            assert(classify(line@) =~= seq![node@]);
        }
        Some(node)
    } else if first_char_is(line, '#') {
        proof {
            assert(line@.subrange(1, n as int) =~= line@.skip(1));
        }
        let body = trim_str(line.substring_char(1, n));
        let node = Node::Heading { level: 1, body };
        proof {
            assert(classify(line@) =~= seq![node@]);
        }
        Some(node)
    } else if starts_with2(line, '=', '>') {
        proof {
            assert(line@.subrange(2, n as int) =~= line@.skip(2));
        }
        let toks = split_ascii_ws_str(line.substring_char(2, n));
        proof {
            assert(strs_view(toks@).len() == toks@.len());
        }
        if toks.len() == 0 {
            None
        } else if toks.len() == 1 {
            proof {
                assert(strs_view(toks@)[0] == toks@[0]@);
            }
            let to = trim_str(toks[0].as_str());
            let node = Node::Link { to, name: None };
            proof {
                assert(classify(line@) =~= seq![node@]);
            }
            Some(node)
        } else {
            proof {
                assert(strs_view(toks@)[0] == toks@[0]@);
            }
            let to = trim_str(toks[0].as_str());
            let joined = join_sp_from(&toks, 1);
            let name = trim_str(joined.as_str());
            let node = Node::Link { to, name: Some(name) };
            proof {
                assert(classify(line@) =~= seq![node@]);
            }
            Some(node)
        }
    } else {
        let node = Node::Text(line.to_owned());
        proof {
            assert(classify(line@) =~= seq![node@]);
        }
        Some(node)
    }
}

/// The nodes of the remaining `lines`: `pre` tells whether a preformatted
/// block is open and `buf` holds its accumulated body.  A toggle line
/// flips `pre` and, when it closes a block, yields one preformatted node
/// with the buffered body trimmed at its end; a block still open when the
/// lines run out is dropped.
pub open spec fn parse_lines(lines: Seq<Seq<char>>, pre: bool, buf: Seq<char>) -> Seq<NodeV>
    decreases lines.len(),
{
    if lines.len() == 0 {
        Seq::empty()
    } else {
        let l = lines[0];
        let rest = lines.drop_first();
        if has_prefix(l, seq!['`', '`', '`']) {
            if pre {
                seq![NodeV::Preformatted(trim_end(buf))] + parse_lines(rest, false, Seq::empty())
            } else {
                parse_lines(rest, true, Seq::empty())
            }
        } else if pre {
            parse_lines(rest, true, buf + l + seq!['\n'])
        } else {
            classify(l) + parse_lines(rest, false, buf)
        }
    }
}

/// The nodes of a whole document.
pub open spec fn spec_parse(doc: Seq<char>) -> Seq<NodeV> {
    parse_lines(spec_lines(doc), false, Seq::empty())
}

/// Parses a document into its nodes.  Total: malformed input degrades to
/// text nodes, and the lines of a preformatted block left open at the end
/// of the input are dropped.
pub fn parse(doc: &str) -> (r: Vec<Node>)
    ensures
        nodes_view(r@) == spec_parse(doc@),
{
    let lines = split_lines(doc);
    let ghost lv = strs_view(lines@);
    let mut out: Vec<Node> = Vec::new();
    let mut pre = false;
    let mut buf = String::new();
    let mut k: usize = 0;
    proof {
        assert(lv.skip(0) =~= lv);
        assert(nodes_view(out@) =~= Seq::<NodeV>::empty());
        assert(nodes_view(out@) + parse_lines(lv, false, buf@) =~= spec_parse(doc@));
    }
    while k < lines.len()
        invariant
            lv == strs_view(lines@),
            k <= lines@.len(),
            spec_parse(doc@) == nodes_view(out@) + parse_lines(lv.skip(k as int), pre, buf@),
        decreases lines@.len() - k,
    {
        proof {
            assert(lv[k as int] == lines@[k as int]@);
            assert(lv.skip(k as int)[0] == lv[k as int]);
            assert(lv.skip(k as int).drop_first() =~= lv.skip(k as int + 1));
        }
        let line = &lines[k];
        if starts_with3(line, '`', '`', '`') {
            if pre {
                let body = trim_end_str(buf.as_str());
                let node = Node::Preformatted(body);
                let ghost out0 = out@;
                out.push(node);
                proof {
                    assert(out@ =~= out0.push(node));
                    assert(nodes_view(out@) =~= nodes_view(out0).push(node@));
                    assert(nodes_view(out0) + (seq![node@] + parse_lines(
                        lv.skip(k as int + 1),
                        false,
                        Seq::empty(),
                    )) =~= nodes_view(out@) + parse_lines(lv.skip(k as int + 1), false, Seq::empty()));
                }
                buf = String::new();
                pre = false;
            } else {
                buf = String::new();
                pre = true;
            }
        } else if pre {
            let ghost buf0 = buf@;
            buf.append(line.as_str());
            buf.append("\n");
            proof {
                reveal_strlit("\n");
                assert(("\n")@ =~= seq!['\n']);
                assert(buf@ =~= buf0 + lv[k as int] + seq!['\n']);
            }
        } else {
            match classify_line(line) {
                Some(node) => {
                    let ghost out0 = out@;
                    out.push(node);
                    proof {
                        assert(out@ =~= out0.push(node));
                        assert(nodes_view(out@) =~= nodes_view(out0).push(node@));
                        assert(classify(lv[k as int]) =~= seq![node@]);
                        assert(nodes_view(out0) + (seq![node@] + parse_lines(
                            lv.skip(k as int + 1),
                            false,
                            buf@,
                        )) =~= nodes_view(out@) + parse_lines(lv.skip(k as int + 1), false, buf@));
                    }
                },
                None => {
                    proof {
                        assert(classify(lv[k as int]) =~= Seq::<NodeV>::empty());
                        assert(classify(lv[k as int]) + parse_lines(lv.skip(k as int + 1), false, buf@)
                            =~= parse_lines(lv.skip(k as int + 1), false, buf@));
                    }
                },
            }
        }
        k = k + 1;
    }
    proof {
        assert(lv.skip(lines@.len() as int) =~= Seq::<Seq<char>>::empty());
        assert(nodes_view(out@) + Seq::<NodeV>::empty() =~= nodes_view(out@));
    }
    out
}

/// True when a text line's literal content would be reclassified on
/// re-parse and so needs a leading escape space when rendered.
pub open spec fn text_needs_escape(b: Seq<char>) -> bool {
    ||| has_prefix(b, seq!['=', '>'])
    ||| has_prefix(b, seq!['`', '`', '`'])
    ||| (b.len() > 0 && (b[0] == '#' || b[0] == '*' || b[0] == '>'))
}

/// `c` repeated `k` times.
pub open spec fn char_repeat(c: char, k: nat) -> Seq<char>
    decreases k,
{
    if k == 0 {
        Seq::empty()
    } else {
        char_repeat(c, (k - 1) as nat).push(c)
    }
}

/// The characters one node renders to, every line newline-terminated.
pub open spec fn render_node(n: NodeV) -> Seq<char> {
    match n {
        NodeV::Text(b) => if text_needs_escape(b) {
            seq![' '] + b + seq!['\n']
        } else {
            b + seq!['\n']
        },
        NodeV::Link { to, name } => match name {
            Some(nm) => seq!['=', '>', ' '] + to + seq![' '] + nm + seq!['\n'],
            None => seq!['=', '>', ' '] + to + seq!['\n'],
        },
        NodeV::Preformatted(b) => seq!['`', '`', '`', '\n'] + b + seq!['\n', '`', '`', '`', '\n'],
        NodeV::Heading { level, body } => char_repeat('#', level as nat) + seq![' '] + body
            + seq!['\n'],
        NodeV::ListItem(b) => seq!['*', ' '] + b + seq!['\n'],
        NodeV::Quote(b) => seq!['>', ' '] + b + seq!['\n'],
    }
}

/// The characters a sequence of nodes renders to, in order.
pub open spec fn spec_render(ns: Seq<NodeV>) -> Seq<char>
    decreases ns.len(),
{
    if ns.len() == 0 {
        Seq::empty()
    } else {
        render_node(ns[0]) + spec_render(ns.drop_first())
    }
}

/// Renders a sequence of nodes as a document.
pub fn render(nodes: Vec<Node>) -> (r: String)
    ensures
        r@ == spec_render(nodes_view(nodes@)),
{
    let ghost nv = nodes_view(nodes@);
    let mut out = String::new();
    let mut k: usize = 0;
    proof {
        assert(nv.skip(0) =~= nv);
        assert(out@ + spec_render(nv) =~= spec_render(nv));
    }
    while k < nodes.len()
        invariant
            nv == nodes_view(nodes@),
            k <= nodes@.len(),
            spec_render(nv) == out@ + spec_render(nv.skip(k as int)),
        decreases nodes@.len() - k,
    {
        proof {
            assert(nv[k as int] == nodes@[k as int]@);
            assert(nv.skip(k as int)[0] == nv[k as int]);
            assert(nv.skip(k as int).drop_first() =~= nv.skip(k as int + 1));
            reveal_strlit(" ");
            reveal_strlit("\n");
            reveal_strlit("=> ");
            reveal_strlit("```\n");
            reveal_strlit("\n```\n");
            reveal_strlit("* ");
            reveal_strlit("> ");
            assert((" ")@ =~= seq![' ']);
            assert(("\n")@ =~= seq!['\n']);
            assert(("=> ")@ =~= seq!['=', '>', ' ']);
            assert(("```\n")@ =~= seq!['`', '`', '`', '\n']);
            assert(("\n```\n")@ =~= seq!['\n', '`', '`', '`', '\n']);
            assert(("* ")@ =~= seq!['*', ' ']);
            assert(("> ")@ =~= seq!['>', ' ']);
        }
        let ghost out0 = out@;
        let node = &nodes[k];
        match node {
            Node::Text(b) => {
                let esc = starts_with2(b.as_str(), '=', '>') || starts_with3(
                    b.as_str(),
                    '`',
                    '`',
                    '`',
                ) || first_char_is(b.as_str(), '#') || first_char_is(b.as_str(), '*')
                    || first_char_is(b.as_str(), '>');
                if esc {
                    out.append(" ");
                }
                out.append(b.as_str());
                out.append("\n");
                proof {
                    assert(out@ =~= out0 + render_node(nv[k as int]));
                }
            },
            Node::Link { to, name } => {
                out.append("=> ");
                out.append(to.as_str());
                match name {
                    Some(nm) => {
                        out.append(" ");
                        out.append(nm.as_str());
                    },
                    None => {},
                }
                out.append("\n");
                proof {
                    assert(out@ =~= out0 + render_node(nv[k as int]));
                }
            },
            Node::Preformatted(b) => {
                out.append("```\n");
                out.append(b.as_str());
                out.append("\n```\n");
                proof {
                    assert(out@ =~= out0 + render_node(nv[k as int]));
                }
            },
            Node::Heading { level, body } => {
                let lv_count: u8 = *level;
                let mut idx: u8 = 0;
                while idx < lv_count
                    invariant
                        idx <= lv_count,
                        out@ == out0 + char_repeat('#', idx as nat),
                    decreases lv_count - idx,
                {
                    out.append("#");
                    proof {
                        reveal_strlit("#");
                        assert(("#")@ =~= seq!['#']);
                        assert(char_repeat('#', (idx + 1) as nat) == char_repeat(
                            '#',
                            idx as nat,
                        ).push('#'));
                        assert(out@ =~= out0 + char_repeat('#', (idx + 1) as nat));
                    }
                    idx = idx + 1;
                }
                out.append(" ");
                out.append(body.as_str());
                out.append("\n");
                proof {
                    assert(out@ =~= out0 + render_node(nv[k as int]));
                }
            },
            Node::ListItem(b) => {
                out.append("* ");
                out.append(b.as_str());
                out.append("\n");
                proof {
                    assert(out@ =~= out0 + render_node(nv[k as int]));
                }
            },
            Node::Quote(b) => {
                out.append("> ");
                out.append(b.as_str());
                out.append("\n");
                proof {
                    assert(out@ =~= out0 + render_node(nv[k as int]));
                }
            },
        }
        proof {
            assert(out0 + (render_node(nv[k as int]) + spec_render(nv.skip(k as int + 1))) =~= out@
                + spec_render(nv.skip(k as int + 1)));
        }
        k = k + 1;
    }
    proof {
        assert(nv.skip(nodes@.len() as int) =~= Seq::<NodeV>::empty());
        assert(out@ + Seq::<char>::empty() =~= out@);
    }
    out
}

/// Builds a gemini document up from a series of nodes.
pub struct Builder {
    nodes: Vec<Node>,
}

impl View for Builder {
    type V = Seq<NodeV>;

    closed spec fn view(&self) -> Seq<NodeV> {
        nodes_view(self.nodes@)
    }
}

impl Builder {
    /// An empty builder.
    pub fn new() -> (r: Builder)
        ensures
            r@ == Seq::<NodeV>::empty(),
    {
        let b = Builder { nodes: Vec::new() };
        proof {
            assert(b@ =~= Seq::<NodeV>::empty());
        }
        b
    }

    /// Appends a text node.
    pub fn text(self, data: &str) -> (r: Builder)
        ensures
            r@ == self@.push(NodeV::Text(data@)),
    {
        let mut nodes = self.nodes;
        let ghost n0 = nodes@;
        nodes.push(Node::Text(data.to_owned()));
        proof {
            assert(nodes_view(nodes@) =~= nodes_view(n0).push(NodeV::Text(data@)));
        }
        Builder { nodes }
    }

    /// Appends a link node.
    pub fn link(self, to: &str, name: Option<String>) -> (r: Builder)
        ensures
            r@ == self@.push(
                NodeV::Link {
                    to: to@,
                    name: match name {
                        Some(nm) => Some(nm@),
                        None => None,
                    },
                },
            ),
    {
        let mut nodes = self.nodes;
        let ghost n0 = nodes@;
        let node = Node::Link { to: to.to_owned(), name };
        nodes.push(node);
        proof {
            assert(nodes_view(nodes@) =~= nodes_view(n0).push(node@));
        }
        Builder { nodes }
    }

    /// Appends a preformatted node.
    pub fn preformatted(self, data: &str) -> (r: Builder)
        ensures
            r@ == self@.push(NodeV::Preformatted(data@)),
    {
        let mut nodes = self.nodes;
        let ghost n0 = nodes@;
        nodes.push(Node::Preformatted(data.to_owned()));
        proof {
            assert(nodes_view(nodes@) =~= nodes_view(n0).push(NodeV::Preformatted(data@)));
        }
        Builder { nodes }
    }

    /// Appends a heading node.
    pub fn heading(self, level: u8, body: &str) -> (r: Builder)
        ensures
            r@ == self@.push(NodeV::Heading { level, body: body@ }),
    {
        let mut nodes = self.nodes;
        let ghost n0 = nodes@;
        nodes.push(Node::Heading { level, body: body.to_owned() });
        proof {
            assert(nodes_view(nodes@) =~= nodes_view(n0).push(NodeV::Heading { level, body: body@ }));
        }
        Builder { nodes }
    }

    /// Appends a list-item node.
    pub fn list_item(self, item: &str) -> (r: Builder)
        ensures
            r@ == self@.push(NodeV::ListItem(item@)),
    {
        let mut nodes = self.nodes;
        let ghost n0 = nodes@;
        nodes.push(Node::ListItem(item.to_owned()));
        proof {
            assert(nodes_view(nodes@) =~= nodes_view(n0).push(NodeV::ListItem(item@)));
        }
        Builder { nodes }
    }

    /// Appends a quote node.
    pub fn quote(self, body: &str) -> (r: Builder)
        ensures
            r@ == self@.push(NodeV::Quote(body@)),
    {
        let mut nodes = self.nodes;
        let ghost n0 = nodes@;
        nodes.push(Node::Quote(body.to_owned()));
        proof {
            assert(nodes_view(nodes@) =~= nodes_view(n0).push(NodeV::Quote(body@)));
        }
        Builder { nodes }
    }

    /// The accumulated nodes, in insertion order.
    pub fn build(self) -> (r: Vec<Node>)
        ensures
            nodes_view(r@) == self@,
    {
        self.nodes
    }
}

/// Line splitting distributes over concatenation at a newline boundary.
proof fn lemma_lines_from_append(a: Seq<char>, b: Seq<char>, cur: Seq<char>)
    requires
        a.len() > 0,
        a.last() == '\n',
    ensures
        lines_from(a + b, cur) == lines_from(a, cur) + lines_from(b, Seq::empty()),
    decreases a.len(),
{
    assert((a + b)[0] == a[0]);
    assert((a + b).len() > 0);
    if a[0] == '\n' {
        assert((a + b).drop_first() =~= a.drop_first() + b);
        if a.len() == 1 {
            assert(a.drop_first() =~= Seq::<char>::empty());
            assert((a + b).drop_first() =~= b);
            assert(lines_from(a, cur) =~= seq![strip_cr(cur)]);
            assert(lines_from(a + b, cur) =~= seq![strip_cr(cur)] + lines_from(b, Seq::empty()));
        } else {
            assert(a.drop_first().last() == a.last());
            lemma_lines_from_append(a.drop_first(), b, Seq::empty());
            assert(lines_from(a + b, cur) =~= lines_from(a, cur) + lines_from(b, Seq::empty()));
        }
    } else {
        assert(a.len() > 1);
        assert((a + b).drop_first() =~= a.drop_first() + b);
        assert(a.drop_first().last() == a.last());
        lemma_lines_from_append(a.drop_first(), b, cur.push(a[0]));
        assert(lines_from(a + b, cur) =~= lines_from(a, cur) + lines_from(b, Seq::empty()));
    }
}

/// The lines of `a + b` are the lines of `a` then those of `b`, when
/// `a` ends with a newline.
proof fn lemma_lines_append(a: Seq<char>, b: Seq<char>)
    requires
        a.len() > 0,
        a.last() == '\n',
    ensures
        spec_lines(a + b) == spec_lines(a) + spec_lines(b),
{
    lemma_lines_from_append(a, b, Seq::empty());
}

/// True when `s` holds no newline character.
pub open spec fn no_nl(s: Seq<char>) -> bool {
    forall|j: int| 0 <= j < s.len() ==> s[j] != '\n'
}

/// A newline-free chunk with a closing newline is exactly one line.
proof fn lemma_lines_from_single(l: Seq<char>, cur: Seq<char>)
    requires
        no_nl(l),
    ensures
        lines_from(l + seq!['\n'], cur) == seq![strip_cr(cur + l)],
    decreases l.len(),
{
    if l.len() == 0 {
        assert(l + seq!['\n'] =~= seq!['\n']);
        assert((seq!['\n'])[0] == '\n');
        assert((seq!['\n']).drop_first() =~= Seq::<char>::empty());
        assert(cur + l =~= cur);
        assert(lines_from(Seq::<char>::empty(), Seq::<char>::empty())
            =~= Seq::<Seq<char>>::empty());
        assert(lines_from(l + seq!['\n'], cur) =~= seq![strip_cr(cur)]);
    } else {
        let s = l + seq!['\n'];
        assert(s[0] == l[0]);
        assert(l[0] != '\n');
        assert(s.drop_first() =~= l.drop_first() + seq!['\n']);
        assert(forall|j: int| 0 <= j < l.drop_first().len() ==> l.drop_first()[j] == l[j + 1]);
        lemma_lines_from_single(l.drop_first(), cur.push(l[0]));
        assert(cur.push(l[0]) + l.drop_first() =~= cur + l);
    }
}

/// The lines of one rendered line: the content itself.
proof fn lemma_lines_single(l: Seq<char>)
    requires
        no_nl(l),
        l.len() > 0 ==> l.last() != '\r',
    ensures
        spec_lines(l + seq!['\n']) == seq![l],
{
    lemma_lines_from_single(l, Seq::empty());
    assert(Seq::<char>::empty() + l =~= l);
    assert(strip_cr(l) == l);
}

/// A word with no whitespace, closed by a space, is one token, and the
/// rest of the input is tokenized on its own.
proof fn lemma_tokens_word(w: Seq<char>, s: Seq<char>, cur: Seq<char>)
    requires
        forall|j: int| 0 <= j < w.len() ==> !is_ascii_ws(w[j]),
        cur.len() + w.len() > 0,
    ensures
        tokens_from(w + seq![' '] + s, cur) == seq![cur + w] + tokens_from(s, Seq::empty()),
    decreases w.len(),
{
    let t = w + seq![' '] + s;
    assert(t.len() > 0);
    if w.len() == 0 {
        assert(t[0] == ' ');
        assert(is_ascii_ws(' '));
        assert(cur.len() > 0);
        assert(t.drop_first() =~= s);
        assert(cur + w =~= cur);
    } else {
        assert(t[0] == w[0]);
        assert(!is_ascii_ws(w[0]));
        assert(t.drop_first() =~= w.drop_first() + seq![' '] + s);
        assert(forall|j: int| 0 <= j < w.drop_first().len() ==> w.drop_first()[j] == w[j + 1]);
        lemma_tokens_word(w.drop_first(), s, cur.push(w[0]));
        assert(cur.push(w[0]) + w.drop_first() =~= cur + w);
    }
}

/// A trailing word with no whitespace is one token.
proof fn lemma_tokens_last(w: Seq<char>, cur: Seq<char>)
    requires
        forall|j: int| 0 <= j < w.len() ==> !is_ascii_ws(w[j]),
        cur.len() + w.len() > 0,
    ensures
        tokens_from(w, cur) == seq![cur + w],
    decreases w.len(),
{
    if w.len() == 0 {
        assert(cur + w =~= cur);
    } else {
        assert(!is_ascii_ws(w[0]));
        lemma_tokens_last(w.drop_first(), cur.push(w[0]));
        assert(cur.push(w[0]) + w.drop_first() =~= cur + w);
    }
}

/// The lines of a text, each closed again with a newline and chained
/// back together.
pub open spec fn join_nl(lines: Seq<Seq<char>>) -> Seq<char>
    decreases lines.len(),
{
    if lines.len() == 0 {
        Seq::empty()
    } else {
        lines[0] + seq!['\n'] + join_nl(lines.drop_first())
    }
}

/// What a node parses back to after rendering: itself, except a text
/// line that collides with a reserved prefix, which keeps the escaping
/// space the renderer put in front of it.
pub open spec fn roundtrip_node(n: NodeV) -> NodeV {
    match n {
        NodeV::Text(b) => NodeV::Text(
            if text_needs_escape(b) {
                seq![' '] + b
            } else {
                b
            },
        ),
        _ => n,
    }
}

/// What the renderer can write so that the parser reads it back: no
/// newline inside a line body, no whitespace at the ends where the
/// parser trims, a link target with no whitespace at all, a link name
/// normalized to single interior spaces, a heading level the parser can
/// produce, and a preformatted body whose lines neither end in a
/// carriage return nor begin with the toggle marker.
pub open spec fn renderable_node(n: NodeV) -> bool {
    match n {
        NodeV::Text(b) => no_nl(b) && (b.len() > 0 ==> b.last() != '\r'),
        NodeV::Quote(b) => no_nl(b) && (b.len() > 0 ==> !is_ws(b[0]) && !is_ws(b.last())),
        NodeV::ListItem(b) => no_nl(b) && (b.len() > 0 ==> !is_ws(b[0]) && !is_ws(b.last())),
        NodeV::Heading { level, body } => 1 <= level <= 3 && no_nl(body) && (body.len() > 0
            ==> !is_ws(body[0]) && !is_ws(body.last())),
        NodeV::Link { to, name } => {
            &&& to.len() > 0
            &&& forall|j: int| 0 <= j < to.len() ==> !is_ascii_ws(#[trigger] to[j])
            &&& !is_ws(to[0])
            &&& !is_ws(to.last())
            &&& match name {
                Some(nm) => {
                    &&& nm.len() > 0
                    &&& forall|j: int|
                        0 <= j < nm.len() && is_ascii_ws(#[trigger] nm[j]) ==> nm[j] == ' '
                    &&& !is_ws(nm[0])
                    &&& !is_ws(nm.last())
                    &&& split_ascii_ws(nm).len() >= 1
                    &&& join_sp(split_ascii_ws(nm)) == nm
                },
                None => true,
            }
        },
        NodeV::Preformatted(b) => {
            &&& (b.len() > 0 ==> !is_ws(b.last()))
            &&& forall|j: int|
                0 <= j < b.len() && #[trigger] b[j] == '\r' ==> j + 1 < b.len() && b[j + 1] != '\n'
            &&& forall|i: int|
                0 <= i < spec_lines(b + seq!['\n']).len() ==> !has_prefix(
                    #[trigger] spec_lines(b + seq!['\n'])[i],
                    seq!['`', '`', '`'],
                )
        },
    }
}

/// Every rendered node ends with a newline.
proof fn lemma_render_ends_nl(n: NodeV)
    ensures
        render_node(n).len() > 0,
        render_node(n).last() == '\n',
{
    match n {
        NodeV::Text(b) => {
            if text_needs_escape(b) {
                assert((seq![' '] + b + seq!['\n']).last() == '\n');
            } else {
                assert((b + seq!['\n']).last() == '\n');
            }
        },
        NodeV::Link { to, name } => {
            match name {
                Some(nm) => {
                    assert((seq!['=', '>', ' '] + to + seq![' '] + nm + seq!['\n']).last() == '\n');
                },
                None => {
                    assert((seq!['=', '>', ' '] + to + seq!['\n']).last() == '\n');
                },
            }
        },
        NodeV::Preformatted(b) => {
            assert((seq!['`', '`', '`', '\n'] + b + seq!['\n', '`', '`', '`', '\n']).last()
                == '\n');
        },
        NodeV::Heading { level, body } => {
            assert((char_repeat('#', level as nat) + seq![' '] + body + seq!['\n']).last() == '\n');
        },
        NodeV::ListItem(b) => {
            assert((seq!['*', ' '] + b + seq!['\n']).last() == '\n');
        },
        NodeV::Quote(b) => {
            assert((seq!['>', ' '] + b + seq!['\n']).last() == '\n');
        },
    }
}

/// A buffer run: lines without a toggle marker only accumulate.
proof fn lemma_pre_buffer(lb: Seq<Seq<char>>, rest: Seq<Seq<char>>, buf: Seq<char>)
    requires
        forall|i: int|
            0 <= i < lb.len() ==> !has_prefix(#[trigger] lb[i], seq!['`', '`', '`']),
    ensures
        parse_lines(lb + rest, true, buf) == parse_lines(rest, true, buf + join_nl(lb)),
    decreases lb.len(),
{
    if lb.len() == 0 {
        assert(lb + rest =~= rest);
        assert(join_nl(lb) =~= Seq::<char>::empty());
        assert(buf + join_nl(lb) =~= buf);
    } else {
        assert((lb + rest)[0] == lb[0]);
        assert(!has_prefix(lb[0], seq!['`', '`', '`']));
        assert((lb + rest).drop_first() =~= lb.drop_first() + rest);
        assert(forall|i: int|
            0 <= i < lb.drop_first().len() ==> lb.drop_first()[i] == lb[i + 1]);
        lemma_pre_buffer(lb.drop_first(), rest, buf + lb[0] + seq!['\n']);
        assert(buf + lb[0] + seq!['\n'] + join_nl(lb.drop_first()) =~= buf + join_nl(lb));
    }
}

/// Splitting into lines and rejoining rebuilds the text, when it ends
/// with a newline and no carriage return stands right before a newline.
proof fn lemma_join_lines(s: Seq<char>, cur: Seq<char>)
    requires
        s.len() > 0,
        s.last() == '\n',
        s[0] == '\n' && cur.len() > 0 ==> cur.last() != '\r',
        forall|j: int| 0 < j < s.len() && #[trigger] s[j] == '\n' ==> s[j - 1] != '\r',
    ensures
        join_nl(lines_from(s, cur)) == cur + s,
    decreases s.len(),
{
    if s[0] == '\n' {
        assert(strip_cr(cur) == cur);
        if s.len() == 1 {
            assert(s.drop_first() =~= Seq::<char>::empty());
            assert(lines_from(Seq::<char>::empty(), Seq::<char>::empty())
                =~= Seq::<Seq<char>>::empty());
            assert(lines_from(s, cur) =~= seq![cur]);
            assert(join_nl(Seq::<Seq<char>>::empty()) =~= Seq::<char>::empty());
            assert((seq![cur]).drop_first() =~= Seq::<Seq<char>>::empty());
            assert((seq![cur])[0] == cur);
            assert(join_nl(seq![cur]) =~= cur + seq!['\n']);
            assert(cur + seq!['\n'] =~= cur + s);
        } else {
            let s2 = s.drop_first();
            assert(s2.last() == s.last());
            assert(forall|j: int| 0 <= j < s2.len() ==> s2[j] == s[j + 1]);
            lemma_join_lines(s2, Seq::empty());
            assert(lines_from(s, cur) =~= seq![cur] + lines_from(s2, Seq::empty()));
            let rest = lines_from(s2, Seq::empty());
            assert((seq![cur] + rest)[0] == cur);
            assert((seq![cur] + rest).drop_first() =~= rest);
            assert(join_nl(seq![cur] + rest) =~= cur + seq!['\n'] + join_nl(rest));
            assert(Seq::<char>::empty() + s2 =~= s2);
            assert(cur + seq!['\n'] + s2 =~= cur + s);
        }
    } else {
        let s2 = s.drop_first();
        assert(s.len() > 1);
        assert(s2.last() == s.last());
        assert(forall|j: int| 0 <= j < s2.len() ==> s2[j] == s[j + 1]);
        assert(s2[0] == '\n' ==> cur.push(s[0]).last() != '\r') by {
            if s2[0] == '\n' {
                assert(s[1] == '\n');
                assert(s[0] != '\r');
            }
        }
        lemma_join_lines(s2, cur.push(s[0]));
        assert(cur.push(s[0]) + s2 =~= cur + s);
    }
}

/// One rendered node at the head of the line stream parses to exactly
/// its round-trip image, leaving the stream behind it untouched.
#[verifier::rlimit(60)]
proof fn lemma_roundtrip_step(n: NodeV, rest: Seq<Seq<char>>)
    requires
        renderable_node(n),
    ensures
        parse_lines(spec_lines(render_node(n)) + rest, false, Seq::empty()) == seq![
            roundtrip_node(n),
        ] + parse_lines(rest, false, Seq::empty()),
{
    let bt = seq!['`', '`', '`'];
    match n {
        NodeV::Text(b) => {
            let line = if text_needs_escape(b) {
                seq![' '] + b
            } else {
                b
            };
            assert(render_node(n) =~= line + seq!['\n']);
            assert(no_nl(line));
            if line.len() > 0 {
                if text_needs_escape(b) {
                    if b.len() > 0 {
                        assert(line.last() == b.last());
                    } else {
                        assert(line.last() == ' ');
                    }
                }
                assert(line.last() != '\r');
            }
            lemma_lines_single(line);
            let ls = seq![line] + rest;
            assert(spec_lines(render_node(n)) + rest =~= ls);
            assert(ls[0] == line);
            assert(ls.drop_first() =~= rest);
            if text_needs_escape(b) {
                assert(line[0] == ' ');
                assert(!has_prefix(line, bt)) by {
                    if has_prefix(line, bt) {
                        assert(line.take(3)[0] == line[0]);
                        assert(bt[0] == '`');
                    }
                }
                assert(!has_prefix(line, seq!['#', '#', '#'])) by {
                    if has_prefix(line, seq!['#', '#', '#']) {
                        assert(line.take(3)[0] == line[0]);
                    }
                }
                assert(!has_prefix(line, seq!['#', '#'])) by {
                    if has_prefix(line, seq!['#', '#']) {
                        assert(line.take(2)[0] == line[0]);
                    }
                }
                assert(!has_prefix(line, seq!['=', '>'])) by {
                    if has_prefix(line, seq!['=', '>']) {
                        assert(line.take(2)[0] == line[0]);
                    }
                }
                assert(classify(line) =~= seq![roundtrip_node(n)]);
            } else {
                assert(!has_prefix(line, bt));
                if line.len() > 0 {
                    assert(line[0] != '#' && line[0] != '*' && line[0] != '>');
                }
                assert(!has_prefix(line, seq!['#', '#', '#'])) by {
                    if has_prefix(line, seq!['#', '#', '#']) {
                        assert(line.take(3)[0] == line[0]);
                    }
                }
                assert(!has_prefix(line, seq!['#', '#'])) by {
                    if has_prefix(line, seq!['#', '#']) {
                        assert(line.take(2)[0] == line[0]);
                    }
                }
                assert(!has_prefix(line, seq!['=', '>']));
                assert(classify(line) =~= seq![roundtrip_node(n)]);
            }
        },
        NodeV::Quote(b) => {
            let line = seq!['>', ' '] + b;
            assert(render_node(n) =~= line + seq!['\n']);
            assert(line[0] == '>');
            assert(no_nl(line)) by {
                assert(forall|j: int| 2 <= j < line.len() ==> line[j] == b[j - 2]);
            }
            if b.len() > 0 {
                assert(line.last() == b.last());
                assert(!is_ws(b.last()));
            } else {
                assert(line.last() == ' ');
            }
            assert(line.last() != '\r') by {
                assert(is_ws('\r'));
            }
            lemma_lines_single(line);
            let ls = seq![line] + rest;
            assert(spec_lines(render_node(n)) + rest =~= ls);
            assert(ls[0] == line);
            assert(ls.drop_first() =~= rest);
            assert(!has_prefix(line, bt)) by {
                if has_prefix(line, bt) {
                    assert(line.take(3)[0] == line[0]);
                }
            }
            assert(line.skip(1) =~= seq![' '] + b);
            assert(trim(seq![' '] + b) == b) by {
                assert(is_ws(' '));
                assert((seq![' '] + b).drop_first() =~= b);
                assert(trim_start(seq![' '] + b) == trim_start(b));
                if b.len() > 0 {
                    assert(!is_ws(b[0]));
                }
                assert(trim_start(b) == b);
                assert(trim_end(b) == b);
            }
            assert(classify(line) =~= seq![roundtrip_node(n)]);
        },
        NodeV::ListItem(b) => {
            let line = seq!['*', ' '] + b;
            assert(render_node(n) =~= line + seq!['\n']);
            assert(line[0] == '*');
            assert(no_nl(line)) by {
                assert(forall|j: int| 2 <= j < line.len() ==> line[j] == b[j - 2]);
            }
            if b.len() > 0 {
                assert(line.last() == b.last());
            } else {
                assert(line.last() == ' ');
            }
            assert(line.last() != '\r') by {
                assert(is_ws('\r'));
            }
            lemma_lines_single(line);
            let ls = seq![line] + rest;
            assert(spec_lines(render_node(n)) + rest =~= ls);
            assert(ls[0] == line);
            assert(ls.drop_first() =~= rest);
            assert(!has_prefix(line, bt)) by {
                if has_prefix(line, bt) {
                    assert(line.take(3)[0] == line[0]);
                }
            }
            assert(line.skip(1) =~= seq![' '] + b);
            assert(trim(seq![' '] + b) == b) by {
                assert(is_ws(' '));
                assert((seq![' '] + b).drop_first() =~= b);
                assert(trim_start(seq![' '] + b) == trim_start(b));
                if b.len() > 0 {
                    assert(!is_ws(b[0]));
                }
                assert(trim_start(b) == b);
                assert(trim_end(b) == b);
            }
            assert(classify(line) =~= seq![roundtrip_node(n)]);
        },
        NodeV::Heading { level, body } => {
            assert(char_repeat('#', 0) =~= Seq::<char>::empty());
            assert(char_repeat('#', 1) =~= seq!['#']);
            assert(char_repeat('#', 2) =~= seq!['#', '#']);
            assert(char_repeat('#', 3) =~= seq!['#', '#', '#']);
            let marks = char_repeat('#', level as nat);
            let line = marks + seq![' '] + body;
            assert(render_node(n) =~= line + seq!['\n']);
            assert(line[0] == '#');
            assert(no_nl(line)) by {
                assert(forall|j: int|
                    level + 1 <= j < line.len() ==> line[j] == body[j - level - 1]);
                assert(forall|j: int| 0 <= j < level ==> line[j] == '#');
                assert(line[level as int] == ' ');
            }
            if body.len() > 0 {
                assert(line.last() == body.last());
            } else {
                assert(line.last() == ' ');
            }
            assert(line.last() != '\r') by {
                assert(is_ws('\r'));
            }
            lemma_lines_single(line);
            let ls = seq![line] + rest;
            assert(spec_lines(render_node(n)) + rest =~= ls);
            assert(ls[0] == line);
            assert(ls.drop_first() =~= rest);
            assert(!has_prefix(line, bt)) by {
                if has_prefix(line, bt) {
                    assert(line.take(3)[0] == line[0]);
                }
            }
            let sp_body = seq![' '] + body;
            assert(trim(sp_body) == body) by {
                assert(is_ws(' '));
                assert(sp_body.drop_first() =~= body);
                assert(trim_start(sp_body) == trim_start(body));
                if body.len() > 0 {
                    assert(!is_ws(body[0]));
                }
                assert(trim_start(body) == body);
                assert(trim_end(body) == body);
            }
            if level == 3 {
                assert(has_prefix(line, seq!['#', '#', '#'])) by {
                    assert(line.take(3) =~= seq!['#', '#', '#']);
                }
                assert(line.skip(3) =~= sp_body);
                assert(classify(line) =~= seq![roundtrip_node(n)]);
            } else if level == 2 {
                assert(line[2] == ' ');
                assert(!has_prefix(line, seq!['#', '#', '#'])) by {
                    if has_prefix(line, seq!['#', '#', '#']) {
                        assert(line.take(3)[2] == line[2]);
                    }
                }
                assert(has_prefix(line, seq!['#', '#'])) by {
                    assert(line.take(2) =~= seq!['#', '#']);
                }
                assert(line.skip(2) =~= sp_body);
                assert(classify(line) =~= seq![roundtrip_node(n)]);
            } else {
                assert(level == 1);
                assert(line[1] == ' ');
                assert(!has_prefix(line, seq!['#', '#', '#'])) by {
                    if has_prefix(line, seq!['#', '#', '#']) {
                        assert(line.take(3)[1] == line[1]);
                    }
                }
                assert(!has_prefix(line, seq!['#', '#'])) by {
                    if has_prefix(line, seq!['#', '#']) {
                        assert(line.take(2)[1] == line[1]);
                    }
                }
                assert(line.skip(1) =~= sp_body);
                assert(classify(line) =~= seq![roundtrip_node(n)]);
            }
        },
        NodeV::Link { to, name } => {
            match name {
                None => {
                    let line = seq!['=', '>', ' '] + to;
                    assert(render_node(n) =~= line + seq!['\n']);
                    assert(line[0] == '=');
                    assert(no_nl(line)) by {
                        assert(forall|j: int| 3 <= j < line.len() ==> line[j] == to[j - 3]);
                        assert(is_ascii_ws('\n'));
                    }
                    assert(line.last() == to.last());
                    assert(line.last() != '\r') by {
                        assert(is_ascii_ws('\r'));
                    }
                    lemma_lines_single(line);
                    let ls = seq![line] + rest;
                    assert(spec_lines(render_node(n)) + rest =~= ls);
                    assert(ls[0] == line);
                    assert(ls.drop_first() =~= rest);
                    assert(!has_prefix(line, bt)) by {
                        if has_prefix(line, bt) {
                            assert(line.take(3)[0] == line[0]);
                        }
                    }
                    assert(!has_prefix(line, seq!['#', '#', '#'])) by {
                        if has_prefix(line, seq!['#', '#', '#']) {
                            assert(line.take(3)[0] == line[0]);
                        }
                    }
                    assert(!has_prefix(line, seq!['#', '#'])) by {
                        if has_prefix(line, seq!['#', '#']) {
                            assert(line.take(2)[0] == line[0]);
                        }
                    }
                    assert(has_prefix(line, seq!['=', '>'])) by {
                        assert(line.take(2) =~= seq!['=', '>']);
                    }
                    assert(line.skip(2) =~= seq![' '] + to);
                    let sp = seq![' '] + to;
                    assert(sp[0] == ' ');
                    assert(is_ascii_ws(' '));
                    assert(sp.drop_first() =~= to);
                    lemma_tokens_last(to, Seq::empty());
                    assert(Seq::<char>::empty() + to =~= to);
                    assert(split_ascii_ws(sp) =~= seq![to]);
                    assert(trim(to) == to) by {
                        assert(trim_start(to) == to);
                        assert(trim_end(to) == to);
                    }
                    assert(classify(line) =~= seq![roundtrip_node(n)]);
                },
                Some(nm) => {
                    let line = seq!['=', '>', ' '] + to + seq![' '] + nm;
                    assert(render_node(n) =~= line + seq!['\n']);
                    assert(line[0] == '=');
                    assert(no_nl(line)) by {
                        assert(forall|j: int| 3 <= j < 3 + to.len() as int ==> line[j] == to[j - 3]);
                        assert(line[3 + to.len() as int] == ' ');
                        assert(forall|j: int|
                            4 + to.len() <= j < line.len() ==> line[j] == nm[j - 4 - to.len() as int]);
                        assert(is_ascii_ws('\n'));
                        assert(forall|j: int|
                            0 <= j < nm.len() && nm[j] == '\n' ==> nm[j] == ' ');
                    }
                    assert(line.last() == nm.last());
                    assert(line.last() != '\r') by {
                        assert(is_ws('\r'));
                    }
                    lemma_lines_single(line);
                    let ls = seq![line] + rest;
                    assert(spec_lines(render_node(n)) + rest =~= ls);
                    assert(ls[0] == line);
                    assert(ls.drop_first() =~= rest);
                    assert(!has_prefix(line, bt)) by {
                        if has_prefix(line, bt) {
                            assert(line.take(3)[0] == line[0]);
                        }
                    }
                    assert(!has_prefix(line, seq!['#', '#', '#'])) by {
                        if has_prefix(line, seq!['#', '#', '#']) {
                            assert(line.take(3)[0] == line[0]);
                        }
                    }
                    assert(!has_prefix(line, seq!['#', '#'])) by {
                        if has_prefix(line, seq!['#', '#']) {
                            assert(line.take(2)[0] == line[0]);
                        }
                    }
                    assert(has_prefix(line, seq!['=', '>'])) by {
                        assert(line.take(2) =~= seq!['=', '>']);
                    }
                    let sp = seq![' '] + to + seq![' '] + nm;
                    assert(line.skip(2) =~= sp);
                    assert(sp[0] == ' ');
                    assert(is_ascii_ws(' '));
                    assert(sp.drop_first() =~= to + seq![' '] + nm);
                    lemma_tokens_word(to, nm, Seq::empty());
                    assert(Seq::<char>::empty() + to =~= to);
                    let toks = seq![to] + split_ascii_ws(nm);
                    assert(split_ascii_ws(sp) =~= toks);
                    assert(toks.len() >= 2);
                    assert(toks[0] == to);
                    assert(trim(to) == to) by {
                        assert(trim_start(to) == to);
                        assert(trim_end(to) == to);
                    }
                    assert(toks.skip(1) =~= split_ascii_ws(nm));
                    assert(join_sp(toks.skip(1)) == nm);
                    assert(trim(nm) == nm) by {
                        assert(trim_start(nm) == nm);
                        assert(trim_end(nm) == nm);
                    }
                    assert(classify(line) =~= seq![roundtrip_node(n)]);
                },
            }
        },
        NodeV::Preformatted(b) => {
            let open_l = seq!['`', '`', '`', '\n'];
            let body_l = b + seq!['\n'];
            let close_l = seq!['`', '`', '`', '\n'];
            assert(render_node(n) =~= open_l + (body_l + close_l));
            assert(open_l =~= bt + seq!['\n']);
            assert(no_nl(bt));
            lemma_lines_single(bt);
            assert(open_l.last() == '\n');
            lemma_lines_append(open_l, body_l + close_l);
            assert(body_l.last() == '\n');
            lemma_lines_append(body_l, close_l);
            lemma_lines_single(bt);
            assert(close_l =~= bt + seq!['\n']);
            let lb = spec_lines(body_l);
            assert(spec_lines(render_node(n)) =~= seq![bt] + (lb + seq![bt]));
            let ls = seq![bt] + (lb + (seq![bt] + rest));
            assert(spec_lines(render_node(n)) + rest =~= ls);
            assert(ls[0] == bt);
            assert(has_prefix(bt, bt)) by {
                assert(bt.take(3) =~= bt);
            }
            assert(ls.drop_first() =~= lb + (seq![bt] + rest));
            lemma_pre_buffer(lb, seq![bt] + rest, Seq::empty());
            assert(b.len() > 0 ==> b.last() != '\r') by {
                if b.len() > 0 && b.last() == '\r' {
                    assert(b[b.len() - 1] == '\r');
                }
            }
            assert(forall|j: int|
                0 < j < body_l.len() && #[trigger] body_l[j] == '\n' ==> body_l[j - 1] != '\r')
                by {
                assert forall|j: int|
                    0 < j < body_l.len() && #[trigger] body_l[j] == '\n' implies body_l[j - 1]
                    != '\r' by {
                    if j < b.len() {
                        assert(body_l[j] == b[j]);
                        assert(body_l[j - 1] == b[j - 1]);
                        if b[j - 1] == '\r' {
                            assert(b[j] != '\n');
                        }
                    } else {
                        assert(j == b.len());
                        assert(body_l[j - 1] == b[j - 1]);
                        if b[j - 1] == '\r' {
                            assert(j - 1 + 1 < b.len());
                        }
                    }
                }
            }
            lemma_join_lines(body_l, Seq::empty());
            assert(Seq::<char>::empty() + body_l =~= body_l);
            assert(Seq::<char>::empty() + join_nl(lb) =~= body_l);
            let ls2 = seq![bt] + rest;
            assert(ls2[0] == bt);
            assert(ls2.drop_first() =~= rest);
            assert(trim_end(body_l) == b) by {
                assert(body_l.last() == '\n');
                assert(is_ws('\n'));
                assert(body_l.drop_last() =~= b);
                if b.len() > 0 {
                    assert(!is_ws(b.last()));
                }
                assert(trim_end(b) == b);
                assert(trim_end(body_l) == trim_end(body_l.drop_last()));
            }
            assert(parse_lines(ls, false, Seq::empty()) =~= seq![roundtrip_node(n)] + parse_lines(
                rest,
                false,
                Seq::empty(),
            ));
        },
    }
}

/// Every node the line stream yields keeps heading levels in 1 to 3.
proof fn lemma_parse_lines_heading(lines: Seq<Seq<char>>, pre: bool, buf: Seq<char>, i: int)
    requires
        0 <= i < parse_lines(lines, pre, buf).len(),
    ensures
        parse_lines(lines, pre, buf)[i] matches NodeV::Heading { level, .. } ==> 1 <= level <= 3,
    decreases lines.len(),
{
    if lines.len() == 0 {
    } else {
        let l = lines[0];
        let rest = lines.drop_first();
        if has_prefix(l, seq!['`', '`', '`']) {
            if pre {
                if i > 0 {
                    lemma_parse_lines_heading(rest, false, Seq::empty(), i - 1);
                }
            } else {
                lemma_parse_lines_heading(rest, true, Seq::empty(), i);
            }
        } else if pre {
            lemma_parse_lines_heading(rest, true, buf + l + seq!['\n'], i);
        } else {
            let c = classify(l);
            if i < c.len() {
                assert(c[i] matches NodeV::Heading { level, .. } ==> 1 <= level <= 3);
            } else {
                lemma_parse_lines_heading(rest, false, buf, i - c.len());
            }
        }
    }
}

/// Heading level law: `parse` never produces a heading level outside
/// 1 to 3; a line of four or more marker characters reads as a level-3
/// heading, by the longest-prefix rule.
pub proof fn lemma_heading_levels(doc: Seq<char>, i: int)
    requires
        0 <= i < spec_parse(doc).len(),
    ensures
        spec_parse(doc)[i] matches NodeV::Heading { level, .. } ==> 1 <= level <= 3,
{
    lemma_parse_lines_heading(spec_lines(doc), false, Seq::empty(), i);
}

/// Round-trip law: a rendered document parses back to the same nodes,
/// except that a text line whose content collides with a reserved
/// prefix comes back with the escaping space at its front (a known,
/// accepted asymmetry of the format).
pub proof fn lemma_parse_render_roundtrip(nodes: Seq<NodeV>)
    requires
        forall|i: int| 0 <= i < nodes.len() ==> renderable_node(#[trigger] nodes[i]),
    ensures
        spec_parse(spec_render(nodes)) == nodes.map_values(|n: NodeV| roundtrip_node(n)),
    decreases nodes.len(),
{
    if nodes.len() == 0 {
        assert(spec_lines(Seq::empty()) =~= Seq::<Seq<char>>::empty());
        assert(nodes.map_values(|n: NodeV| roundtrip_node(n)) =~= Seq::<NodeV>::empty());
    } else {
        let n0 = nodes[0];
        let rest = nodes.drop_first();
        assert(renderable_node(n0));
        assert(forall|i: int| 0 <= i < rest.len() ==> renderable_node(#[trigger] rest[i])) by {
            assert(forall|i: int| 0 <= i < rest.len() ==> rest[i] == nodes[i + 1]);
        }
        lemma_render_ends_nl(n0);
        lemma_lines_append(render_node(n0), spec_render(rest));
        assert(spec_render(nodes) == render_node(n0) + spec_render(rest));
        lemma_roundtrip_step(n0, spec_lines(spec_render(rest)));
        lemma_parse_render_roundtrip(rest);
        assert(nodes.map_values(|n: NodeV| roundtrip_node(n)) =~= seq![roundtrip_node(n0)]
            + rest.map_values(|n: NodeV| roundtrip_node(n)));
    }
}

} // verus!
