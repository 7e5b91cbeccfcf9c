use gemcrawl::gemtext::{parse, render, Builder, Node};

#[test]
fn basic() {
    let msg = "# A heading\n\nSome text here.\n=> gemini://example.org/ An example\n";
    let doc = parse(msg);
    assert_ne!(doc.len(), 0);
}

#[test]
fn quote() {
    let msg = ">hi there";
    let expected: Vec<Node> = vec![Node::Quote("hi there".to_string())];
    assert_eq!(expected, parse(msg));
}

#[test]
fn list() {
    let msg = "*hi there";
    let expected: Vec<Node> = vec![Node::ListItem("hi there".to_string())];
    assert_eq!(expected, parse(msg));
}

#[test]
fn preformatted() {
    let msg = "```\nhi there\n```\n\nTest\n";
    let expected: Vec<Node> = vec![
        Node::Preformatted("hi there".to_string()),
        Node::Text(String::new()),
        Node::Text("Test".to_string()),
    ];
    assert_eq!(expected, parse(msg));
}

#[test]
fn header() {
    let msg = "#hi\n##there\n### my friends";
    let expected: Vec<Node> = vec![
        Node::Heading {
            level: 1,
            body: "hi".to_string(),
        },
        Node::Heading {
            level: 2,
            body: "there".to_string(),
        },
        Node::Heading {
            level: 3,
            body: "my friends".to_string(),
        },
    ];
    assert_eq!(expected, parse(msg));
}

#[test]
fn link() {
    let msg = "=>/\n=> / Go home\n=>";
    let expected: Vec<Node> = vec![
        Node::Link {
            to: "/".to_string(),
            name: None,
        },
        Node::Link {
            to: "/".to_string(),
            name: Some("Go home".to_string()),
        },
    ];
    assert_eq!(expected, parse(msg));
}

#[test]
fn ambiguous_preformatted() {
    let msg = "```foo\nFOO\n```\nFoo bar\n";
    let expected: Vec<Node> = vec![
        Node::Preformatted("FOO".to_string()),
        Node::Text("Foo bar".to_string()),
    ];
    assert_eq!(expected, parse(msg));
}

#[test]
fn ambiguous_text() {
    let original = Node::Text("#1 World's Best Coder".to_string());
    let expected = " #1 World's Best Coder\n";
    let rendered = render(vec![original]);
    assert_eq!(expected, rendered);
}

#[test]
fn ambiguous_text_reparse() {
    let rendered = render(vec![Node::Text("#1 World's Best Coder".to_string())]);
    let reparsed = parse(&rendered);
    // The escaping space becomes part of the text on re-parse: a known,
    // accepted round-trip asymmetry.
    assert_eq!(
        vec![Node::Text(" #1 World's Best Coder".to_string())],
        reparsed
    );
}

#[test]
fn preformatted_toggling() {
    let msg = "```\nX\n```\n\nY\n";
    let expected: Vec<Node> = vec![
        Node::Preformatted("X".to_string()),
        Node::Text(String::new()),
        Node::Text("Y".to_string()),
    ];
    assert_eq!(expected, parse(msg));
}

#[test]
fn preformatted_unterminated_dropped() {
    // Current behavior, documented as such: a block left open at end of
    // input loses its lines.
    let msg = "```\nX\n";
    let expected: Vec<Node> = vec![];
    assert_eq!(expected, parse(msg));
}

#[test]
fn link_split_policy() {
    assert_eq!(Vec::<Node>::new(), parse("=>"));
    assert_eq!(
        vec![Node::Link {
            to: "/".to_string(),
            name: None
        }],
        parse("=> /")
    );
    assert_eq!(
        vec![Node::Link {
            to: "/".to_string(),
            name: Some("Go home".to_string())
        }],
        parse("=> / Go home")
    );
}

#[test]
fn heading_overflow_is_level_three() {
    let msg = "#### four marks";
    let expected: Vec<Node> = vec![Node::Heading {
        level: 3,
        body: "# four marks".to_string(),
    }];
    assert_eq!(expected, parse(msg));
}

#[test]
fn render_each_kind() {
    assert_eq!("hello\n", render(vec![Node::Text("hello".to_string())]));
    assert_eq!(
        "=> /x\n",
        render(vec![Node::Link {
            to: "/x".to_string(),
            name: None
        }])
    );
    assert_eq!(
        "=> /x Click\n",
        render(vec![Node::Link {
            to: "/x".to_string(),
            name: Some("Click".to_string())
        }])
    );
    assert_eq!(
        "```\ncode\n```\n",
        render(vec![Node::Preformatted("code".to_string())])
    );
    assert_eq!(
        "## Title\n",
        render(vec![Node::Heading {
            level: 2,
            body: "Title".to_string()
        }])
    );
    assert_eq!("* item\n", render(vec![Node::ListItem("item".to_string())]));
    assert_eq!("> words\n", render(vec![Node::Quote("words".to_string())]));
}

#[test]
fn roundtrip_mixed_document() {
    let nodes = Builder::new()
        .heading(1, "Title")
        .text("plain line")
        .link("gemini://example.org/", Some("Example".to_string()))
        .preformatted("a\nb")
        .list_item("one")
        .quote("said so")
        .text("")
        .build();
    let rendered = render(nodes.clone());
    assert_eq!(nodes, parse(&rendered));
}

#[test]
fn roundtrip_escaped_text() {
    let nodes = vec![Node::Text("> not a quote".to_string())];
    let rendered = render(nodes);
    assert_eq!("\u{20}> not a quote\n", rendered);
    assert_eq!(
        vec![Node::Text(" > not a quote".to_string())],
        parse(&rendered)
    );
}

#[test]
fn builder_and_blank() {
    let nodes = Builder::new().text("a").build();
    assert_eq!(vec![Node::Text("a".to_string())], nodes);
    assert_eq!(Node::Text(String::new()), Node::blank());
}

#[test]
fn bare_trailing_carriage_return_stays() {
    // Only a carriage return directly before a line feed is a line
    // ending; a bare one at the end of the input is content.
    let expected: Vec<Node> = vec![Node::Text("abc\r".to_string())];
    assert_eq!(expected, parse("abc\r"));
}

#[test]
fn crlf_lines() {
    let msg = "# hi\r\nbody\r\n";
    let expected: Vec<Node> = vec![
        Node::Heading {
            level: 1,
            body: "hi".to_string(),
        },
        Node::Text("body".to_string()),
    ];
    assert_eq!(expected, parse(msg));
}
