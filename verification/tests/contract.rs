use xml_scan::{simd, XmlError, XmlEvent, XmlIter};

fn events(input: &str) -> Vec<XmlEvent<'_>> {
    let mut p = XmlIter::from(input);
    let mut v = Vec::new();
    loop {
        match p.next_event() {
            Ok(Some(e)) => v.push(e),
            Ok(None) => return v,
            Err(e) => panic!("unexpected error: {:?}", e),
        }
    }
}

/// Drives the scanner to its terminal outcome: the events first, then
/// `Ok(())` for a clean end or the error that cut the stream short.
fn run(input: &str) -> (Vec<XmlEvent<'_>>, Result<(), XmlError>) {
    let mut p = XmlIter::from(input);
    let mut v = Vec::new();
    loop {
        match p.next_event() {
            Ok(Some(e)) => v.push(e),
            Ok(None) => return (v, Ok(())),
            Err(e) => return (v, Err(e)),
        }
    }
}

#[test]
fn missing_element_name() {
    assert_eq!(run("<>"), (vec![], Err(XmlError::MissingElementName)));
    assert_eq!(run("<"), (vec![], Err(XmlError::MissingElementName)));
    assert_eq!(
        run("<a></a><>"),
        (
            vec![
                XmlEvent::PushElement { name: "a" },
                XmlEvent::PopElement { name: Some("a") },
            ],
            Err(XmlError::MissingElementName)
        )
    );
}

#[test]
fn missing_attribute_name() {
    assert_eq!(
        run("<r =\"x\">"),
        (
            vec![XmlEvent::PushElement { name: "r" }],
            Err(XmlError::MissingAttributeName)
        )
    );
}

#[test]
fn unexpected_char() {
    // a `<` inside an open tag may only start a comment
    assert_eq!(
        run("<r <x"),
        (
            vec![XmlEvent::PushElement { name: "r" }],
            Err(XmlError::UnexpectedChar('x', 4))
        )
    );
    // a close tag must end with `>`
    assert_eq!(run("</r x>"), (vec![], Err(XmlError::UnexpectedChar('x', 4))));
    // a `/` inside an open tag must be followed by `>`
    assert_eq!(
        run("<r/x>"),
        (
            vec![XmlEvent::PushElement { name: "r" }],
            Err(XmlError::UnexpectedChar('x', 3))
        )
    );
    // an attribute value must open with a double quote
    assert_eq!(
        run("<r a=x>"),
        (
            vec![XmlEvent::PushElement { name: "r" }],
            Err(XmlError::UnexpectedChar('x', 5))
        )
    );
}

#[test]
fn unexpected_end_of_input() {
    // the input ends inside the open tag
    assert_eq!(
        run("<r "),
        (
            vec![XmlEvent::PushElement { name: "r" }],
            Err(XmlError::UnexpectedEndOfInput)
        )
    );
    assert_eq!(
        run("<r"),
        (
            vec![XmlEvent::PushElement { name: "r" }],
            Err(XmlError::UnexpectedEndOfInput)
        )
    );
    assert_eq!(
        run("<r/"),
        (
            vec![XmlEvent::PushElement { name: "r" }],
            Err(XmlError::UnexpectedEndOfInput)
        )
    );
    assert_eq!(run("</r"), (vec![], Err(XmlError::UnexpectedEndOfInput)));
}

#[test]
fn unterminated_attribute_value() {
    assert_eq!(
        run("<r a=\"x"),
        (
            vec![XmlEvent::PushElement { name: "r" }],
            Err(XmlError::UnterminatedAttributeValue)
        )
    );
    // a trailing backslash consumes the would-be closing quote
    assert_eq!(
        run("<r a=\"x\\\""),
        (
            vec![XmlEvent::PushElement { name: "r" }],
            Err(XmlError::UnterminatedAttributeValue)
        )
    );
}

#[test]
fn error_is_terminal() {
    let mut p = XmlIter::from("<>");
    assert_eq!(p.next_event(), Err(XmlError::MissingElementName));
    // the scanner rests in its terminal state afterwards
    assert_eq!(p.next_event(), Ok(None));
    assert_eq!(p.next_event(), Ok(None));

    let mut q = XmlIter::from("<r/>");
    assert_eq!(
        q.next_event(),
        Ok(Some(XmlEvent::PushElement { name: "r" }))
    );
    assert_eq!(
        q.next_event(),
        Ok(Some(XmlEvent::PopElement { name: None }))
    );
    assert_eq!(q.next_event(), Ok(None));
    assert_eq!(q.next_event(), Ok(None));
}

#[test]
fn comments_emitted_on_request() {
    let mut p = XmlIter::from("<a><!-- hi --></a>").with_comments();
    assert_eq!(
        p.next_event(),
        Ok(Some(XmlEvent::PushElement { name: "a" }))
    );
    assert_eq!(p.next_event(), Ok(Some(XmlEvent::Comment { text: " hi " })));
    assert_eq!(
        p.next_event(),
        Ok(Some(XmlEvent::PopElement { name: Some("a") }))
    );
    assert_eq!(p.next_event(), Ok(None));

    // inside an open tag the comment is an event too
    let mut q = XmlIter::from("<r <!--x--> ></r>").with_comments();
    assert_eq!(
        q.next_event(),
        Ok(Some(XmlEvent::PushElement { name: "r" }))
    );
    assert_eq!(q.next_event(), Ok(Some(XmlEvent::Comment { text: "x" })));
    assert_eq!(
        q.next_event(),
        Ok(Some(XmlEvent::PopElement { name: Some("r") }))
    );
    assert_eq!(q.next_event(), Ok(None));

    // an unterminated comment still ends the stream silently
    let mut r = XmlIter::from("<!--xx").with_comments();
    assert_eq!(r.next_event(), Ok(None));
}

#[test]
fn depth_counter_balances() {
    // the depth counter of a well-formed document never goes negative
    // and returns to zero at the end of the stream
    let mut depth: i64 = 0;
    let mut pushes: u64 = 0;
    let mut pops: u64 = 0;
    for e in events("<r><a min=\"0\"><b/></a> text <!--c--> <c></c></r>") {
        match e {
            XmlEvent::PushElement { .. } => {
                depth += 1;
                pushes += 1;
            }
            XmlEvent::PopElement { .. } => {
                depth -= 1;
                pops += 1;
            }
            _ => {}
        }
        assert!(depth >= 0);
    }
    assert_eq!(depth, 0);
    assert_eq!(pushes, pops);
}

#[test]
fn slices_borrow_from_input() {
    // every payload is a contiguous piece of the input buffer
    let input = "<サイボーグ 難易度=\"難しい\" >text</サイボーグ>";
    for e in events(input) {
        match e {
            XmlEvent::PushElement { name } => assert!(input.contains(name)),
            XmlEvent::PopElement { name: Some(name) } => assert!(input.contains(name)),
            XmlEvent::PopElement { name: None } => {}
            XmlEvent::Attr { name, value } => {
                assert!(input.contains(name));
                if let Some(v) = value {
                    assert!(input.contains(v));
                }
            }
            XmlEvent::Text { text } => assert!(input.contains(text)),
            XmlEvent::Comment { text } => assert!(input.contains(text)),
        }
    }
}

#[test]
fn line_counter() {
    let mut p = XmlIter::from("<r/>");
    p.enter();
    p.enter();
    let _ = p.next_event();
    let mut q = simd::Parser::new("<r/>");
    q.enter();
    let _ = q.next_event();
}

fn simd_events(input: &str) -> (Vec<XmlEvent<'_>>, Result<(), XmlError>) {
    let mut p = simd::Parser::new(input);
    let mut v = Vec::new();
    loop {
        match p.next_event() {
            Ok(Some(e)) => v.push(e),
            Ok(None) => return (v, Ok(())),
            Err(e) => return (v, Err(e)),
        }
    }
}

#[test]
fn simd_matches_scalar() {
    // both scanners meet the same contract, so on ASCII input the streams
    // agree event for event, and on the same terminal outcome
    let inputs = [
        "<r></r>",
        "<r><a><b></b></a></r>",
        "<r/>",
        "<r />",
        "<!--<r></r>-->",
        "<!--<r></r>",
        "<r> <!-- text --> </r>",
        "<r <!-- min=\"0, 0\" --> ></r>",
        "<r clip></r>",
        "<r clip/>",
        "<r min=\"0, 0\"></r>",
        "<r toggle color=\"#fff\"></r>",
        "<a>  some <!-- not --> text  </a>",
        "  text\n only  ",
        "<a>20 &lt; 30</a>",
        "<>",
        "<r <x",
        "<r a=\"x",
        "<r ",
    ];
    for input in inputs {
        assert_eq!(run(input), simd_events(input), "diverged on {:?}", input);
    }
}

#[test]
fn simd_attributes() {
    let (evs, end) = simd_events("<r toggle color=\"#fff\"></r>");
    assert_eq!(end, Ok(()));
    assert_eq!(
        evs,
        vec![
            XmlEvent::PushElement { name: "r" },
            XmlEvent::Attr {
                name: "toggle",
                value: None,
            },
            XmlEvent::Attr {
                name: "color",
                value: Some("#fff"),
            },
            XmlEvent::PopElement { name: Some("r") },
        ]
    );
}

#[test]
fn simd_long_input_crosses_chunks() {
    // names and text longer than one 16-byte chunk exercise the chunked
    // search's skip-ahead and its bytewise tail
    let input = "<averylongelementname attributename=\"a somewhat longer value\">some text that runs well past sixteen bytes</averylongelementname>";
    let (evs, end) = simd_events(input);
    assert_eq!(end, Ok(()));
    assert_eq!(
        evs,
        vec![
            XmlEvent::PushElement {
                name: "averylongelementname",
            },
            XmlEvent::Attr {
                name: "attributename",
                value: Some("a somewhat longer value"),
            },
            XmlEvent::Text {
                text: "some text that runs well past sixteen bytes",
            },
            XmlEvent::PopElement {
                name: Some("averylongelementname"),
            },
        ]
    );
    assert_eq!(run(input), (evs, Ok(())));
}

#[test]
fn unicode_whitespace_trimmed() {
    // NBSP and ideographic space count as whitespace: skipped before
    // content, trimmed after it
    let input = "<a>\u{00A0}text\u{00A0}\u{3000}</a>";
    assert_eq!(
        events(input),
        vec![
            XmlEvent::PushElement { name: "a" },
            XmlEvent::Text { text: "text" },
            XmlEvent::PopElement { name: Some("a") },
        ]
    );
}
