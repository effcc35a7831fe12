use xml_scan::{XmlEvent, XmlIter};

fn collect(mut p: XmlIter<'_>) -> Vec<XmlEvent<'_>> {
    let mut v = Vec::new();
    loop {
        match p.next_event() {
            Ok(Some(e)) => v.push(e),
            Ok(None) => return v,
            Err(e) => panic!("unexpected error: {:?}", e),
        }
    }
}

fn cmp(p: XmlIter<'_>, expected: &[XmlEvent<'_>]) {
    let got = collect(p);
    assert_eq!(got.as_slice(), expected);
}

#[test]
fn elements() {
    cmp(
        XmlIter::from("<r></r>"),
        &[
            XmlEvent::PushElement { name: "r" },
            XmlEvent::PopElement { name: Some("r") },
        ],
    );

    cmp(
        XmlIter::from("<r><a><b></b></a></r>"),
        &[
            XmlEvent::PushElement { name: "r" },
            XmlEvent::PushElement { name: "a" },
            XmlEvent::PushElement { name: "b" },
            XmlEvent::PopElement { name: Some("b") },
            XmlEvent::PopElement { name: Some("a") },
            XmlEvent::PopElement { name: Some("r") },
        ],
    );

    cmp(
        XmlIter::from("<r/>"),
        &[
            XmlEvent::PushElement { name: "r" },
            XmlEvent::PopElement { name: None },
        ],
    );

    cmp(
        XmlIter::from("<r />"),
        &[
            XmlEvent::PushElement { name: "r" },
            XmlEvent::PopElement { name: None },
        ],
    );
}

#[test]
fn comments() {
    cmp(XmlIter::from("<!--<r></r>-->"), &[]);
    cmp(XmlIter::from("<!--<r></r>"), &[]);

    cmp(
        XmlIter::from("<r> <!-- text --> </r>"),
        &[
            XmlEvent::PushElement { name: "r" },
            XmlEvent::PopElement { name: Some("r") },
        ],
    );

    cmp(
        XmlIter::from("<r <!-- min=\"0, 0\" --> ></r>"),
        &[
            XmlEvent::PushElement { name: "r" },
            XmlEvent::PopElement { name: Some("r") },
        ],
    );
}

#[test]
fn attributes() {
    cmp(
        XmlIter::from("<r clip></r>"),
        &[
            XmlEvent::PushElement { name: "r" },
            XmlEvent::Attr {
                name: "clip",
                value: None,
            },
            XmlEvent::PopElement { name: Some("r") },
        ],
    );

    cmp(
        XmlIter::from("<r clip/>"),
        &[
            XmlEvent::PushElement { name: "r" },
            XmlEvent::Attr {
                name: "clip",
                value: None,
            },
            XmlEvent::PopElement { name: None },
        ],
    );

    cmp(
        XmlIter::from("<r min=\"0, 0\"></r>"),
        &[
            XmlEvent::PushElement { name: "r" },
            XmlEvent::Attr {
                name: "min",
                value: Some("0, 0"),
            },
            XmlEvent::PopElement { name: Some("r") },
        ],
    );

    cmp(
        XmlIter::from("<r toggle color=\"#fff\"></r>"),
        &[
            XmlEvent::PushElement { name: "r" },
            XmlEvent::Attr {
                name: "toggle",
                value: None,
            },
            XmlEvent::Attr {
                name: "color",
                value: Some("#fff"),
            },
            XmlEvent::PopElement { name: Some("r") },
        ],
    );

    cmp(
        XmlIter::from(r#"<r text="\"escaped\" sequence \u0041"></r>"#),
        &[
            XmlEvent::PushElement { name: "r" },
            XmlEvent::Attr {
                name: "text",
                value: Some("\\\"escaped\\\" sequence \\u0041"),
            },
            XmlEvent::PopElement { name: Some("r") },
        ],
    );
}

#[test]
fn text() {
    cmp(
        XmlIter::from("<a>  some text  </a>"),
        &[
            XmlEvent::PushElement { name: "a" },
            XmlEvent::Text { text: "some text" },
            XmlEvent::PopElement { name: Some("a") },
        ],
    );

    cmp(
        XmlIter::from("<a>some text</a>"),
        &[
            XmlEvent::PushElement { name: "a" },
            XmlEvent::Text { text: "some text" },
            XmlEvent::PopElement { name: Some("a") },
        ],
    );

    cmp(
        XmlIter::from("<a>  some <!-- not --> text  </a>"),
        &[
            XmlEvent::PushElement { name: "a" },
            XmlEvent::Text { text: "some" },
            XmlEvent::Text { text: "text" },
            XmlEvent::PopElement { name: Some("a") },
        ],
    );

    cmp(
        XmlIter::from("  text\n only  "),
        &[
            XmlEvent::Text { text: "text" },
            XmlEvent::Text { text: "only" },
        ],
    );

    // doesnt support embedding '<' or '>' during the texts
    cmp(
        XmlIter::from("<a>20 &lt; 30</a>"),
        &[
            XmlEvent::PushElement { name: "a" },
            XmlEvent::Text { text: "20 &lt; 30" },
            XmlEvent::PopElement { name: Some("a") },
        ],
    );
}

#[test]
fn multiline_text() {
    // big text chunck
    cmp(
        XmlIter::from(
            r#"<a color="rgb(0, 0, 0)">
                    Lorem ipsum dolor sit amet, consectetur adipiscing elit. Pellentesque rhoncus dui in leo mollis,
                    eleifend auctor neque gravida. Mauris quis tortor eget quam porttitor vulputate.
                    Ut cursus quam vitae turpis bibendum congue. Orci varius natoque penatibus et magnis dis parturient montes,
                    nascetur ridiculus mus. Ut tincidunt eu arcu eu dapibus. Nunc non urna orci. Quisque sit amet nisi viverra,
                    malesuada lacus id, congue neque.
                </a>"#,
        ),
        &[
            XmlEvent::PushElement { name: "a" },
            XmlEvent::Attr { name: "color", value: Some("rgb(0, 0, 0)") },
            XmlEvent::Text { text: "Lorem ipsum dolor sit amet, consectetur adipiscing elit. Pellentesque rhoncus dui in leo mollis," },
            XmlEvent::Text { text: "eleifend auctor neque gravida. Mauris quis tortor eget quam porttitor vulputate." },
            XmlEvent::Text { text: "Ut cursus quam vitae turpis bibendum congue. Orci varius natoque penatibus et magnis dis parturient montes," },
            XmlEvent::Text { text: "nascetur ridiculus mus. Ut tincidunt eu arcu eu dapibus. Nunc non urna orci. Quisque sit amet nisi viverra," },
            XmlEvent::Text { text: "malesuada lacus id, congue neque." },
            XmlEvent::PopElement { name: Some("a") },
        ],
    );
}

#[test]
fn full_utf8_support() {
    cmp(
        XmlIter::from(r#"<サイボーグ 難易度="難しい" ></サイボーグ>"#),
        &[
            XmlEvent::PushElement {
                name: "サイボーグ",
            },
            XmlEvent::Attr {
                name: "難易度",
                value: Some("難しい"),
            },
            XmlEvent::PopElement {
                name: Some("サイボーグ"),
            },
        ],
    );

    // \u{200F} unsures vscode will draw the string right
    cmp(
        XmlIter::from(r#"‏ <سايبورغ الصعوبة="صعب"> </سايبورغ>"#),
        &[
            XmlEvent::PushElement {
                name: "سايبورغ",
            },
            XmlEvent::Attr {
                name: "الصعوبة",
                value: Some("صعب"),
            },
            XmlEvent::PopElement {
                name: Some("سايبورغ"),
            },
        ],
    );

    cmp(
        XmlIter::from(r#"<☕ ⚪="⚽" ></☕>"#),
        &[
            XmlEvent::PushElement { name: "☕" },
            XmlEvent::Attr {
                name: "⚪",
                value: Some("⚽"),
            },
            XmlEvent::PopElement { name: Some("☕") },
        ],
    );
}
