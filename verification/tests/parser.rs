use tei_viewer::tei_data::{Footnote, Line, Metadata, TeiDocument, TextNode, Zone};
use tei_viewer::tei_parser::{parse_events, parse_tei_xml};
use tei_viewer::xml_events::{tokenize, XmlEvent};

fn text(content: &str) -> TextNode {
    TextNode::Text { content: content.to_string() }
}

fn parse(xml: &str) -> TeiDocument {
    match parse_tei_xml(xml) {
        Ok(document) => document,
        Err(error) => panic!("{}", error.message),
    }
}

fn body_lines(inner: &str) -> Vec<Line> {
    parse(&format!("<TEI><text><body>{}</body></text></TEI>", inner)).lines
}

fn line_content(inner: &str) -> Vec<TextNode> {
    let mut lines = body_lines(&format!("<lb/><ab>{}</ab>", inner));
    assert_eq!(lines.len(), 1);
    lines.remove(0).content
}

const SAMPLE: &str = r##"<?xml version="1.0" encoding="UTF-8"?>
<!-- a sample page -->
<TEI xmlns="http://www.tei-c.org/ns/1.0">
  <teiHeader>
    <fileDesc>
      <titleStmt>
        <title>PGM   XIII</title>
        <author>Anonymous</author>
        <editor>R. W. <hi>Daniel</hi></editor>
      </titleStmt>
      <editionStmt><edition>diplomatic</edition></editionStmt>
      <sourceDesc><msDesc><msIdentifier>
        <country>Netherlands</country>
        <settlement>Leiden</settlement>
        <institution>RMO</institution>
        <collection></collection>
      </msIdentifier></msDesc></sourceDesc>
    </fileDesc>
    <profileDesc><langUsage><language ident="grc">Greek</language></langUsage></profileDesc>
  </teiHeader>
  <facsimile>
    <surface xml:id="s1">
      <graphic url="p1.jpg" width="2000" height="3000px"/>
      <zone xml:id="z1" type="line" points="586,455 597.2,452.6 600,460"/>
      <zone type="line" points="1,1 2,2"/>
      <zone xml:id="z2" points="x"></zone>
    </surface>
  </facsimile>
  <text><body>
    <lb facs="#z1"/><ab>Hello <hi rend="bold">big</hi> world</ab>
    <lb facs="#z9"/><ab>second</ab>
  </body></text>
</TEI>
"##;

#[test]
fn sample_document_is_parsed_whole() {
    let document = parse(SAMPLE);
    assert_eq!(
        document.metadata,
        Metadata {
            title: "PGM XIII".to_string(),
            author: "Anonymous".to_string(),
            editor: "R. W. Daniel".to_string(),
            edition_type: "diplomatic".to_string(),
            language: "Greek".to_string(),
            country: Some("Netherlands".to_string()),
            settlement: Some("Leiden".to_string()),
            institution: Some("RMO".to_string()),
            collection: None,
            siglum: None,
        }
    );
    assert_eq!(document.facsimile.surface_id, "s1");
    assert_eq!(document.facsimile.image_url, "p1.jpg");
    assert_eq!(document.facsimile.width, 2000);
    assert_eq!(document.facsimile.height, 0);
    assert_eq!(
        document.facsimile.zones,
        vec![
            Zone {
                id: "z1".to_string(),
                zone_type: "line".to_string(),
                points: vec![(586, 455), (597, 453), (600, 460)],
            },
            Zone { id: "z2".to_string(), zone_type: String::new(), points: vec![] },
        ]
    );
    assert_eq!(
        document.lines,
        vec![
            Line {
                facs: "z1".to_string(),
                content: vec![
                    text("Hello "),
                    TextNode::Hi { rend: "bold".to_string(), content: vec![text("big")] },
                    text(" world"),
                ],
            },
            Line { facs: "z9".to_string(), content: vec![text("second")] },
        ]
    );
    assert!(document.footnotes.is_empty());
}

#[test]
fn lines_are_as_many_as_line_breaks_in_the_body() {
    assert_eq!(body_lines("").len(), 0);
    assert_eq!(body_lines("<lb/>").len(), 1);
    assert_eq!(body_lines("<lb/><ab>a</ab><lb/><ab>b</ab><lb></lb><ab>c</ab>").len(), 3);
    assert_eq!(body_lines("<lb/><lb/><lb/><lb/>").len(), 4);
    let outside = parse("<TEI><lb/><text><body><lb/></body><lb/></text></TEI>");
    assert_eq!(outside.lines.len(), 1);
    let inside_content = body_lines("<lb/><ab>a<lb/>b</ab>");
    assert_eq!(inside_content.len(), 1);
    assert_eq!(inside_content[0].content, vec![text("a"), text("b")]);
}

#[test]
fn line_refers_to_its_zone_without_the_hash() {
    let lines = body_lines(r###"<lb facs="#z1"/><lb facs="z2"/><lb facs="##z3"/><lb/><lb n="4"/>"###);
    let refs: Vec<&str> = lines.iter().map(|l| l.facs.as_str()).collect();
    assert_eq!(refs, vec!["z1", "z2", "z3", "", ""]);
    let document = parse(r##"<TEI><body><lb facs="#nowhere"/></body></TEI>"##);
    assert!(document.facsimile.get_zone("nowhere").is_none());
    assert_eq!(document.lines[0].facs, "nowhere");
}

#[test]
fn content_outside_a_line_is_not_kept() {
    assert_eq!(body_lines("<ab>lost</ab>").len(), 0);
    let lines = body_lines("<ab>lost</ab><lb/><ab>kept</ab>text<ab> more</ab>");
    assert_eq!(lines.len(), 1);
    assert_eq!(lines[0].content, vec![text("kept"), text(" more")]);
}

#[test]
fn choice_with_correction_gives_one_choice_node() {
    assert_eq!(
        line_content("<choice><sic>A</sic><corr>B</corr></choice>"),
        vec![TextNode::Choice { sic: "A".to_string(), corr: "B".to_string() }]
    );
}

#[test]
fn choice_with_abbreviation_gives_abbr_node() {
    assert_eq!(
        line_content("<choice><abbr>Dr</abbr><expan>Doctor</expan></choice>"),
        vec![TextNode::Abbr { abbr: "Dr".to_string(), expan: "Doctor".to_string() }]
    );
}

#[test]
fn choice_prefers_abbreviation_then_correction_then_regularization() {
    assert_eq!(
        line_content("<choice><orig>o</orig><reg>r</reg></choice>"),
        vec![TextNode::Regularised { orig: "o".to_string(), reg: "r".to_string() }]
    );
    assert_eq!(
        line_content("<choice><orig>o</orig><sic>s</sic><abbr>a</abbr><reg>r</reg></choice>"),
        vec![TextNode::Abbr { abbr: "a".to_string(), expan: String::new() }]
    );
    assert_eq!(
        line_content("<choice><orig>o</orig><corr>c</corr></choice>"),
        vec![TextNode::Choice { sic: String::new(), corr: "c".to_string() }]
    );
    assert_eq!(line_content("<choice></choice>"), vec![]);
    assert_eq!(line_content("<choice>loose<other>text</other></choice>"), vec![]);
    assert_eq!(
        line_content("a<choice><sic><hi>A</hi>1</sic> <corr>B</corr></choice>b"),
        vec![
            text("a"),
            TextNode::Choice { sic: "A1".to_string(), corr: "B".to_string() },
            text("b")
        ]
    );
}

#[test]
fn zone_without_id_is_not_kept() {
    let document = parse(
        r#"<TEI><facsimile><zone xml:id="a" points="1,2"/><zone points="3,4"/><zone xml:id="" type="t"/><zone xml:id="b"/></facsimile></TEI>"#,
    );
    let ids: Vec<&str> = document.facsimile.zones.iter().map(|z| z.id.as_str()).collect();
    assert_eq!(ids, vec!["a", "b"]);
    assert!(document.facsimile.get_zone("").is_none());
    assert_eq!(document.facsimile.get_zone("a").unwrap().points, vec![(1, 2)]);
}

#[test]
fn later_zone_replaces_earlier_zone_of_the_same_id() {
    let document = parse(
        r#"<TEI><facsimile><zone xml:id="a" type="old" points="1,2"/><zone xml:id="b"/><zone xml:id="a" type="new"></zone></facsimile></TEI>"#,
    );
    assert_eq!(document.facsimile.zones.len(), 2);
    let zone = document.facsimile.get_zone("a").unwrap();
    assert_eq!(zone.zone_type, "new");
    assert_eq!(zone.points, vec![]);
    assert_eq!(document.facsimile.get_zone("b").unwrap().id, "b");
    assert!(document.facsimile.get_zone("c").is_none());
}

#[test]
fn facsimile_elements_count_only_inside_the_facsimile() {
    let document = parse(
        r#"<TEI><surface xml:id="early"/><graphic url="early.jpg" width="1"/><zone xml:id="early"/><facsimile><surface xml:id="s" n="1"><graphic url="a.jpg" width="10" height="20"></graphic><graphic height="30"/></surface></facsimile><zone xml:id="late"/><body><zone xml:id="body"/></body></TEI>"#,
    );
    assert_eq!(document.facsimile.surface_id, "s");
    assert_eq!(document.facsimile.image_url, "a.jpg");
    assert_eq!(document.facsimile.width, 10);
    assert_eq!(document.facsimile.height, 30);
    assert!(document.facsimile.zones.is_empty());
    let still_open = parse(r#"<TEI><facsimile><body><zone xml:id="z"/><graphic url="u"/></body></facsimile></TEI>"#);
    assert!(still_open.facsimile.zones.is_empty());
    assert_eq!(still_open.facsimile.image_url, "");
}

#[test]
fn sizes_that_are_no_numbers_count_as_zero() {
    let document = parse(r#"<TEI><facsimile><graphic width="12px" height="-4"/></facsimile></TEI>"#);
    assert_eq!((document.facsimile.width, document.facsimile.height), (0, 0));
    let document = parse(r#"<TEI><facsimile><graphic width="+12" height="4294967295"/></facsimile></TEI>"#);
    assert_eq!((document.facsimile.width, document.facsimile.height), (12, u32::MAX));
    let document = parse(r#"<TEI><facsimile><graphic width="7" height="8"/><graphic width="" url=""/></facsimile></TEI>"#);
    assert_eq!((document.facsimile.width, document.facsimile.height), (0, 8));
}

const NOTES: &str = r##"<TEI><text><body><lb/><ab>x<note target="#n1">1</note></ab></body>
<back><div type="notes">
  <note xml:id="n1" n="i">First</note>
  <note id="n2" n="">Second <hi>styled</hi>  text</note>
  <note>Third with <note>inner</note> tail</note>
  <note xml:id="n4">Fourth</note>
</div><note xml:id="n5">outside</note></back></text></TEI>"##;

#[test]
fn footnote_without_label_is_numbered_by_its_place() {
    let document = parse(NOTES);
    assert_eq!(document.footnotes.len(), 4);
    assert_eq!(
        document.footnotes[0],
        Footnote { id: "n1".to_string(), n: "i".to_string(), content: "First".to_string() }
    );
    assert_eq!(
        document.footnotes[1],
        Footnote {
            id: "n2".to_string(),
            n: "2".to_string(),
            content: "Second styled  text".to_string()
        }
    );
    assert_eq!(document.footnotes[2].n, "3");
    assert_eq!(document.footnotes[2].id, "");
    assert_eq!(document.footnotes[3].n, "4");
    assert_eq!(
        document.lines[0].content,
        vec![text("x"), TextNode::NoteRef { note_id: "n1".to_string(), n: "1".to_string() }]
    );
}

#[test]
fn nested_note_does_not_end_the_outer_note() {
    let document = parse(NOTES);
    assert_eq!(document.footnotes[2].content, "Third with inner tail");
    assert_eq!(
        document.footnotes[3],
        Footnote { id: "n4".to_string(), n: "4".to_string(), content: "Fourth".to_string() }
    );
    assert_eq!(
        line_content("<note n=\"1\">a<note>b</note>c</note>d"),
        vec![TextNode::InlineNote { content: "abc".to_string(), n: "1".to_string() }, text("d")]
    );
}

#[test]
fn notes_div_is_told_by_its_type() {
    let notes = |attributes: &str| {
        parse(&format!("<TEI><div {}><note>n</note></div><note>late</note></TEI>", attributes)).footnotes.len()
    };
    assert_eq!(notes(r#"type="notes""#), 1);
    assert_eq!(notes(r#"type="note""#), 1);
    assert_eq!(notes(r#"n="1" type="note" xml:id="d""#), 1);
    assert_eq!(notes(r#"type="Notes""#), 0);
    assert_eq!(notes(r#"subtype="notes""#), 0);
    assert_eq!(notes(""), 0);
    let in_body = parse(r#"<TEI><body><div type="notes"><note>a</note></div><note>b</note></body></TEI>"#);
    assert_eq!(in_body.footnotes.len(), 1);
    let by_hand = vec![
        XmlEvent::Start { name: "div".to_string(), attrs: vec![("type".to_string(), "notes".to_string())] },
        XmlEvent::End { name: "body".to_string() },
        XmlEvent::Start { name: "note".to_string(), attrs: vec![] },
        XmlEvent::End { name: "note".to_string() },
    ];
    assert_eq!(parse_events(&by_hand).footnotes.len(), 0);
}

#[test]
fn unknown_element_in_a_line_passes_its_text_on() {
    assert_eq!(
        line_content("before <future attr=\"1\">inside <hi>styled</hi> text<deeper>deep</deeper></future> after"),
        vec![text("before "), text("inside "), text(" text"), text("deep"), text(" after")]
    );
    assert!(parse_tei_xml("<TEI><body><lb/><ab><x><y><z/></y></x></ab></body></TEI>").is_ok());
    assert!(parse_tei_xml("<unknown><root>text</root></unknown>").is_ok());
}

#[test]
fn stream_that_ends_after_a_line_break_keeps_the_line() {
    let document = parse(r#"<TEI><text><body><lb facs="z1"/>"#);
    assert_eq!(document.lines, vec![Line { facs: "z1".to_string(), content: vec![] }]);
    let document = parse(r#"<TEI><text><body><lb facs="z1"/><ab>open <hi rend="b">never closed"#);
    assert_eq!(
        document.lines,
        vec![Line {
            facs: "z1".to_string(),
            content: vec![
                text("open "),
                TextNode::Hi { rend: "b".to_string(), content: vec![text("never closed")] }
            ]
        }]
    );
}

#[test]
fn empty_document_gives_empty_model() {
    assert_eq!(parse(""), TeiDocument::new());
    assert_eq!(parse("   \n"), TeiDocument::new());
    assert_eq!(parse("<TEI/>"), TeiDocument::new());
}

#[test]
fn malformed_markup_is_an_error_with_its_offset() {
    let error = parse_tei_xml("<a></b>").unwrap_err();
    assert_eq!(error.offset, 5);
    assert!(error.message.starts_with("XML parsing error at position 5: "), "{}", error.message);
    assert!(error.message.len() > "XML parsing error at position 5: ".len());
    assert!(parse_tei_xml("<TEI><body><lb/><ab>text</x></ab></body></TEI>").is_err());
    assert!(parse_tei_xml("<TEI><div type=\"notes\"><note>text</oops></note></div></TEI>").is_err());
    assert!(parse_tei_xml("</a>").is_err());
    assert!(parse_tei_xml("<a><!-></a>").is_err());
}

#[test]
fn names_lose_their_prefix_and_attribute_keys_keep_it() {
    let document = parse(
        r##"<tei:TEI><tei:facsimile><tei:zone xml:id="z" id="other" tei:type="t"/></tei:facsimile><tei:body><tei:lb facs="#z"/></tei:body></tei:TEI>"##,
    );
    assert_eq!(document.facsimile.zones.len(), 1);
    assert_eq!(document.facsimile.zones[0].id, "z");
    assert_eq!(document.facsimile.zones[0].zone_type, "");
    assert_eq!(document.lines.len(), 1);
}

#[test]
fn text_is_unescaped_and_attribute_values_are_not() {
    assert_eq!(line_content("a &amp; b &lt;c&gt; &#x3b1;&#946;"), vec![text("a & b <c> \u{3b1}\u{3b2}")]);
    let document = parse(r#"<TEI><facsimile><zone xml:id="a&amp;b" type="x&lt;y"/></facsimile></TEI>"#);
    assert_eq!(document.facsimile.zones[0].id, "a&amp;b");
    assert_eq!(document.facsimile.zones[0].zone_type, "x&lt;y");
    assert_eq!(line_content("kept<hi>&unknown;</hi>"), vec![text("kept"), TextNode::Hi { rend: String::new(), content: vec![] }]);
}

#[test]
fn comments_and_cdata_are_passed_over() {
    assert_eq!(line_content("a<!-- c -->b<![CDATA[raw]]>c<?pi x?>"), vec![text("a"), text("b"), text("c")]);
}

#[test]
fn metadata_fields_take_the_normalized_text_of_their_element() {
    let document = parse(
        "<TEI><title>  A \n title </title><author></author><editor> </editor><country>NL</country><country></country><settlement>  </settlement><title>Second</title><siglum>S</siglum></TEI>",
    );
    assert_eq!(document.metadata.title, "Second");
    assert_eq!(document.metadata.author, "");
    assert_eq!(document.metadata.editor, " ");
    assert_eq!(document.metadata.country, Some("NL".to_string()));
    assert_eq!(document.metadata.settlement, Some(" ".to_string()));
    assert_eq!(document.metadata.institution, None);
    assert_eq!(document.metadata.siglum, None);
    let document = parse("<TEI><title>kept</title>loose text</title-less></TEI>".replace("</title-less>", "").as_str());
    assert_eq!(document.metadata.title, "kept");
}

#[test]
fn events_of_a_document_end_with_the_end_of_the_stream() {
    let events = tokenize(r#"<a k="v" j='w'>t<b/></a>"#).ok().unwrap();
    assert_eq!(
        events,
        vec![
            XmlEvent::Start {
                name: "a".to_string(),
                attrs: vec![("k".to_string(), "v".to_string()), ("j".to_string(), "w".to_string())]
            },
            XmlEvent::Text { content: "t".to_string() },
            XmlEvent::Empty { name: "b".to_string(), attrs: vec![] },
            XmlEvent::End { name: "a".to_string() },
            XmlEvent::Eof,
        ]
    );
    assert_eq!(tokenize("").ok().unwrap(), vec![XmlEvent::Eof]);
    assert_eq!(tokenize("<!--c-->").ok().unwrap(), vec![XmlEvent::Other, XmlEvent::Eof]);
    let error = tokenize("<a></b>").unwrap_err();
    assert_eq!(error.offset, 5);
}

#[test]
fn events_by_hand_give_the_same_document() {
    let by_hand = vec![
        XmlEvent::Start { name: "body".to_string(), attrs: vec![] },
        XmlEvent::Empty { name: "lb".to_string(), attrs: vec![("facs".to_string(), "#z".to_string())] },
        XmlEvent::Start { name: "ab".to_string(), attrs: vec![] },
        XmlEvent::Text { content: " a  b ".to_string() },
        XmlEvent::End { name: "ab".to_string() },
        XmlEvent::End { name: "body".to_string() },
        XmlEvent::Eof,
        XmlEvent::Empty { name: "lb".to_string(), attrs: vec![] },
    ];
    let document = parse_events(&by_hand);
    assert_eq!(document.lines, vec![Line { facs: "z".to_string(), content: vec![text(" a b ")] }]);
    assert_eq!(document, parse(r##"<body><lb facs="#z"/><ab> a  b </ab></body>"##));
    assert_eq!(parse_events(&vec![]), TeiDocument::new());
    let no_end = vec![
        XmlEvent::Start { name: "body".to_string(), attrs: vec![] },
        XmlEvent::Start { name: "lb".to_string(), attrs: vec![] },
    ];
    assert_eq!(parse_events(&no_end).lines.len(), 1);
}

#[test]
fn broken_attributes_are_passed_over() {
    let document = parse(r#"<TEI><facsimile><zone xml:id="a" xml:id="b" type="t"/><zone xml:id=c type="u"/><zone xml:id type="v" /></facsimile></TEI>"#);
    let zones: Vec<(&str, &str)> = document
        .facsimile
        .zones
        .iter()
        .map(|z| (z.id.as_str(), z.zone_type.as_str()))
        .collect();
    assert_eq!(zones, vec![("a", "t")]);
}

#[test]
fn byte_order_mark_and_prolog_are_passed_over() {
    let document = parse(
        "\u{feff}<?xml version=\"1.0\"?>\r\n<!DOCTYPE TEI>\r\n<TEI><title>T</title><body><lb facs='#q'/><ab>a\r\nb</ab></body></TEI>",
    );
    assert_eq!(document.metadata.title, "T");
    assert_eq!(document.lines.len(), 1);
    assert_eq!(document.lines[0].facs, "q");
    assert_eq!(document.lines[0].content, vec![text("a b")]);
}

#[test]
fn failure_is_reported_wherever_it_lies() {
    for xml in [
        "<TEI><title>a</b></title></TEI>",
        "<TEI><facsimile><zone xml:id=\"z\"/></surface></facsimile></TEI>",
        "<TEI><body><lb/><ab><choice><sic>a</corr></choice></ab></body></TEI>",
        "<TEI><body><lb/><ab><note>a</b></note></ab></body></TEI>",
        "<TEI><body><lb/><ab><hi>a</b></hi></ab></body></TEI>",
    ] {
        assert!(parse_tei_xml(xml).is_err(), "{}", xml);
    }
    let error = parse_tei_xml("<TEI><title>a</b></title></TEI>").unwrap_err();
    assert_eq!(error.offset, 15);
}
