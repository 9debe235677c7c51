//! The document parser: one pass over the events of a document that
//! builds its metadata, page geometry, lines and footnotes.

use crate::inline::{
    attr_number, attr_string, attr_text, attr_u32, attr_value, collect_text, find_attr,
    inline_nodes, parse_inline_nodes, remaining, text_span,
};
use crate::points::{decoded_points, parse_points_allow_float};
use crate::tei_data::{
    footnotes_view, lemma_footnotes_view_push, lemma_lines_view_push, lemma_nodes_view_concat,
    lines_view, nodes_view, pairs_view, DocumentModel, Facsimile, FacsimileModel, Footnote,
    FootnoteModel, Line, LineModel, Metadata, MetadataModel, NodeModel, TeiDocument, TextNode,
    Zone, ZoneModel,
};
use crate::text::{
    decimal_text, normalize_whitespace, normalized, push_decimal, push_text, strip_leading,
    without_leading,
};
use crate::xml_events::{
    events_read, events_view, is_reading, tokenize, xml_outcomes, EventModel, Outcome, ParseError,
    XmlEvent,
};
use vstd::prelude::*;

verus! {

/// Whether `name` names a bibliographic element whose text goes to the
/// metadata.
pub open spec fn is_field(name: Seq<char>) -> bool {
    name == "title"@ || name == "author"@ || name == "editor"@ || name == "edition"@ || name
        == "language"@ || name == "country"@ || name == "settlement"@ || name == "institution"@
        || name == "collection"@
}

/// The metadata `metadata` with the text `text` in the field that the
/// element `name` stands for.
pub open spec fn with_field(metadata: MetadataModel, name: Seq<char>, text: Seq<char>)
    -> MetadataModel {
    if name == "title"@ {
        MetadataModel { title: text, ..metadata }
    } else if name == "author"@ {
        MetadataModel { author: text, ..metadata }
    } else if name == "editor"@ {
        MetadataModel { editor: text, ..metadata }
    } else if name == "edition"@ {
        MetadataModel { edition_type: text, ..metadata }
    } else if name == "language"@ {
        MetadataModel { language: text, ..metadata }
    } else if name == "country"@ {
        MetadataModel { country: Some(text), ..metadata }
    } else if name == "settlement"@ {
        MetadataModel { settlement: Some(text), ..metadata }
    } else if name == "institution"@ {
        MetadataModel { institution: Some(text), ..metadata }
    } else if name == "collection"@ {
        MetadataModel { collection: Some(text), ..metadata }
    } else {
        metadata
    }
}

/// Whether a `div` with the attributes `attrs` holds footnotes: one of
/// them is `type` with the value `notes` or `note`.
pub open spec fn opens_notes(attrs: Seq<(Seq<char>, Seq<char>)>) -> bool {
    exists|i: int|
        0 <= i < attrs.len() && (#[trigger] attrs[i]).0 == "type"@ && (attrs[i].1 == "notes"@
            || attrs[i].1 == "note"@)
}

/// The id of a footnote with the attributes `attrs`: the value of the last
/// of them that is named `xml:id` or `id`, or the empty text.
pub open spec fn footnote_id(attrs: Seq<(Seq<char>, Seq<char>)>) -> Seq<char>
    decreases attrs.len(),
{
    if attrs.len() == 0 {
        Seq::empty()
    } else if attrs.last().0 == "xml:id"@ || attrs.last().0 == "id"@ {
        attrs.last().1
    } else {
        footnote_id(attrs.drop_last())
    }
}

/// The zone that a `zone` tag with the attributes `attrs` describes.
pub open spec fn zone_of(attrs: Seq<(Seq<char>, Seq<char>)>) -> ZoneModel {
    ZoneModel {
        id: attr_text(attrs, "xml:id"@),
        zone_type: attr_text(attrs, "type"@),
        points: match attr_value(attrs, "points"@) {
            Some(list) => decoded_points(list, true),
            None => Seq::empty(),
        },
    }
}

/// What the parser holds between two events.
pub struct DriverModel {
    pub metadata: MetadataModel,
    pub facsimile: FacsimileModel,
    /// The lines that are complete.
    pub lines: Seq<LineModel>,
    /// The line that is being filled.
    pub current: Option<LineModel>,
    pub footnotes: Seq<FootnoteModel>,
    /// The normalized text met since the buffer was last cleared.
    pub buffer: Seq<char>,
    pub in_body: bool,
    pub in_facsimile: bool,
    pub in_notes_div: bool,
}

impl DriverModel {
    /// The state before the first event.
    pub open spec fn initial() -> DriverModel {
        DriverModel {
            metadata: MetadataModel::empty(),
            facsimile: FacsimileModel::empty(),
            lines: Seq::empty(),
            current: None,
            footnotes: Seq::empty(),
            buffer: Seq::empty(),
            in_body: false,
            in_facsimile: false,
            in_notes_div: false,
        }
    }

    /// The state with the line that is being filled, if any, put after the
    /// complete ones.
    pub open spec fn flushed(self) -> DriverModel {
        match self.current {
            Some(line) => DriverModel { lines: self.lines.push(line), current: None, ..self },
            None => self,
        }
    }

    /// The state after a line break with the attributes `attrs`: the line
    /// so far is complete, and an empty one begins that refers to the zone
    /// named by `facs` without its leading `#`s.
    pub open spec fn with_line(self, attrs: Seq<(Seq<char>, Seq<char>)>) -> DriverModel {
        DriverModel {
            current: Some(
                LineModel {
                    facs: without_leading(attr_text(attrs, "facs"@), '#'),
                    content: Seq::empty(),
                },
            ),
            buffer: Seq::empty(),
            ..self.flushed()
        }
    }

    /// The state after a `surface` tag: its `xml:id`, where it has one, is
    /// the surface id.
    pub open spec fn with_surface(self, attrs: Seq<(Seq<char>, Seq<char>)>) -> DriverModel {
        match attr_value(attrs, "xml:id"@) {
            Some(id) => DriverModel {
                facsimile: FacsimileModel { surface_id: id, ..self.facsimile },
                ..self
            },
            None => self,
        }
    }

    /// The state after a `graphic` tag: each of `url`, `width` and `height`
    /// that it has replaces what was declared, a size that is no number
    /// counting as 0.
    pub open spec fn with_graphic(self, attrs: Seq<(Seq<char>, Seq<char>)>) -> DriverModel {
        DriverModel {
            facsimile: FacsimileModel {
                image_url: match attr_value(attrs, "url"@) {
                    Some(url) => url,
                    None => self.facsimile.image_url,
                },
                width: if attr_value(attrs, "width"@) is Some {
                    attr_number(attrs, "width"@)
                } else {
                    self.facsimile.width
                },
                height: if attr_value(attrs, "height"@) is Some {
                    attr_number(attrs, "height"@)
                } else {
                    self.facsimile.height
                },
                ..self.facsimile
            },
            ..self
        }
    }

    /// The state after a `zone` tag: its zone is held under its id, in
    /// place of an earlier one of that id; a zone without an id is dropped.
    pub open spec fn with_zone(self, attrs: Seq<(Seq<char>, Seq<char>)>) -> DriverModel {
        if zone_of(attrs).id.len() == 0 {
            self
        } else {
            DriverModel {
                facsimile: FacsimileModel {
                    zones: self.facsimile.zones.insert(zone_of(attrs).id, zone_of(attrs)),
                    ..self.facsimile
                },
                ..self
            }
        }
    }

    /// The state with `nodes` after the content of the line that is being
    /// filled.
    pub open spec fn with_content(self, nodes: Seq<NodeModel>) -> DriverModel {
        match self.current {
            Some(line) => DriverModel {
                current: Some(LineModel { content: line.content + nodes, ..line }),
                ..self
            },
            None => self,
        }
    }

    /// The state after a footnote with the attributes `attrs` and the text
    /// `text`. Its label is its `n`; where that is absent or empty, it is
    /// the footnote's place among the footnotes, counted from 1.
    pub open spec fn with_footnote(self, attrs: Seq<(Seq<char>, Seq<char>)>, text: Seq<char>)
        -> DriverModel {
        DriverModel {
            footnotes: self.footnotes.push(
                FootnoteModel {
                    id: footnote_id(attrs),
                    n: if attr_text(attrs, "n"@).len() == 0 {
                        decimal_text(self.footnotes.len() + 1)
                    } else {
                        attr_text(attrs, "n"@)
                    },
                    content: text,
                },
            ),
            ..self
        }
    }

    /// The state after the closing tag of the bibliographic element
    /// `name`: the buffered text, unless it is empty, is its field; the
    /// buffer is empty.
    pub open spec fn with_field_closed(self, name: Seq<char>) -> DriverModel {
        DriverModel {
            metadata: if self.buffer.len() == 0 {
                self.metadata
            } else {
                with_field(self.metadata, name, self.buffer)
            },
            buffer: Seq::empty(),
            ..self
        }
    }

    /// The document that the state amounts to at the end of the stream:
    /// the line that is being filled counts as complete.
    pub open spec fn document(self) -> DocumentModel {
        DocumentModel {
            metadata: self.metadata,
            facsimile: self.facsimile,
            lines: self.flushed().lines,
            footnotes: self.footnotes,
        }
    }
}

/// The state after the opening tag at `pos`, named `name` with the
/// attributes `attrs`, and the number of events after the tag that are
/// read with it.
///
/// Only an `ab` in the body with a line open and outside the notes, and a
/// `note` inside the notes, take the events of their content.
pub open spec fn after_start(
    events: Seq<EventModel>,
    pos: int,
    state: DriverModel,
    name: Seq<char>,
    attrs: Seq<(Seq<char>, Seq<char>)>,
) -> (DriverModel, nat) {
    if name == "facsimile"@ {
        (DriverModel { in_facsimile: true, ..state }, 0)
    } else if name == "surface"@ {
        (
            if state.in_facsimile {
                state.with_surface(attrs)
            } else {
                state
            },
            0,
        )
    } else if name == "graphic"@ {
        (
            if state.in_facsimile {
                state.with_graphic(attrs)
            } else {
                state
            },
            0,
        )
    } else if name == "zone"@ {
        (
            if state.in_facsimile {
                state.with_zone(attrs)
            } else {
                state
            },
            0,
        )
    } else if name == "body"@ {
        (DriverModel { in_body: true, in_facsimile: false, ..state }, 0)
    } else if name == "back"@ {
        (DriverModel { in_body: false, in_facsimile: false, ..state }, 0)
    } else if name == "lb"@ {
        (
            if state.in_body {
                state.with_line(attrs)
            } else {
                state
            },
            0,
        )
    } else if name == "ab"@ {
        if state.in_body && state.current is Some && !state.in_notes_div {
            let content = inline_nodes(events, pos + 1, name);
            (state.with_content(content.0), content.1)
        } else {
            (state, 0)
        }
    } else if name == "div"@ {
        (
            if opens_notes(attrs) {
                DriverModel { in_notes_div: true, ..state }
            } else {
                state
            },
            0,
        )
    } else if name == "note"@ {
        if state.in_notes_div {
            let span = text_span(events, pos + 1, name, 1);
            (state.with_footnote(attrs, span.0), span.1)
        } else {
            (state, 0)
        }
    } else if is_field(name) {
        (DriverModel { buffer: Seq::empty(), ..state }, 0)
    } else {
        (state, 0)
    }
}

/// The state after a closing tag named `name`.
pub open spec fn after_end(state: DriverModel, name: Seq<char>) -> DriverModel {
    if name == "facsimile"@ {
        DriverModel { in_facsimile: false, ..state }
    } else if name == "div"@ {
        DriverModel { in_notes_div: false, ..state }
    } else if name == "body"@ {
        DriverModel { in_body: false, in_notes_div: false, ..state.flushed() }
    } else if is_field(name) {
        state.with_field_closed(name)
    } else {
        state
    }
}

/// The state after a self-closing tag named `name` with the attributes
/// `attrs`.
pub open spec fn after_empty(
    state: DriverModel,
    name: Seq<char>,
    attrs: Seq<(Seq<char>, Seq<char>)>,
) -> DriverModel {
    if state.in_facsimile && name == "graphic"@ {
        state.with_graphic(attrs)
    } else if state.in_facsimile && name == "zone"@ {
        state.with_zone(attrs)
    } else if name == "lb"@ && state.in_body {
        state.with_line(attrs)
    } else {
        state
    }
}

/// The state after the event at `pos`, and the number of events after it
/// that are read with it.
pub open spec fn after_event(events: Seq<EventModel>, pos: int, state: DriverModel) -> (
    DriverModel,
    nat,
) {
    match events[pos] {
        EventModel::Start { name, attrs } => after_start(events, pos, state, name, attrs),
        EventModel::End { name } => (after_end(state, name), 0),
        EventModel::Empty { name, attrs } => (after_empty(state, name, attrs), 0),
        EventModel::Text { content } => (
            DriverModel { buffer: state.buffer + normalized(content), ..state },
            0,
        ),
        _ => (state, 0),
    }
}

/// The state at the end of the stream, reached from `state` at `pos`. The
/// stream ends at its first end-of-stream event, or where it has no more
/// events.
pub open spec fn driven(events: Seq<EventModel>, pos: int, state: DriverModel) -> DriverModel
    decreases remaining(events, pos),
{
    if pos < 0 || pos >= events.len() || events[pos] is Eof {
        state
    } else {
        let next = after_event(events, pos, state);
        driven(events, pos + 1 + next.1, next.0)
    }
}

/// The document that the events `events` describe.
pub open spec fn document_of(events: Seq<EventModel>) -> DocumentModel {
    driven(events, 0, DriverModel::initial()).document()
}

/// Whether the event at `pos` opens a line in the state `state`: it is an
/// `lb` tag, opening or self-closing, met in the body.
pub open spec fn opens_line(events: Seq<EventModel>, pos: int, state: DriverModel) -> bool {
    state.in_body && match events[pos] {
        EventModel::Start { name, .. } => name == "lb"@,
        EventModel::Empty { name, .. } => name == "lb"@,
        _ => false,
    }
}

/// The number of line breaks met in the body from `pos` on, starting in
/// the state `state`. A line break inside the content of an `ab` or of a
/// footnote belongs to that content and is not met.
pub open spec fn line_breaks(events: Seq<EventModel>, pos: int, state: DriverModel) -> nat
    decreases remaining(events, pos),
{
    if pos < 0 || pos >= events.len() || events[pos] is Eof {
        0
    } else {
        let next = after_event(events, pos, state);
        line_breaks(events, pos + 1 + next.1, next.0) + if opens_line(events, pos, state) {
            1nat
        } else {
            0nat
        }
    }
}

/// The number of lines that `state` holds, the one being filled included.
pub open spec fn lines_begun(state: DriverModel) -> nat {
    state.lines.len() + if state.current is Some {
        1nat
    } else {
        0nat
    }
}

/// The name `lb` is none of the names that are looked at before it.
proof fn lemma_lb_is_distinct()
    ensures
        "lb"@ != "facsimile"@,
        "lb"@ != "surface"@,
        "lb"@ != "graphic"@,
        "lb"@ != "zone"@,
        "lb"@ != "body"@,
        "lb"@ != "back"@,
{
    reveal_strlit("lb");
    reveal_strlit("facsimile");
    reveal_strlit("surface");
    reveal_strlit("graphic");
    reveal_strlit("zone");
    reveal_strlit("body");
    reveal_strlit("back");
    assert("lb"@.len() == 2);
    assert("facsimile"@.len() == 9);
    assert("surface"@.len() == 7);
    assert("graphic"@.len() == 7);
    assert("zone"@.len() == 4);
    assert("body"@.len() == 4);
    assert("back"@.len() == 4);
}

/// An event begins one line where it opens a line, and none where it does
/// not; no event takes a line away.
pub proof fn lemma_event_lines(events: Seq<EventModel>, pos: int, state: DriverModel)
    requires
        0 <= pos < events.len(),
    ensures
        lines_begun(after_event(events, pos, state).0) == lines_begun(state) + if opens_line(
            events,
            pos,
            state,
        ) {
            1nat
        } else {
            0nat
        },
{
    lemma_lb_is_distinct();
    match events[pos] {
        EventModel::Start { name, attrs } => {
            let next = after_start(events, pos, state, name, attrs).0;
            if name == "lb"@ {
                if state.in_body {
                    assert(next == state.with_line(attrs));
                    assert(lines_begun(state.flushed()) == lines_begun(state));
                } else {
                    assert(next == state);
                }
            } else if name == "facsimile"@ || name == "surface"@ || name == "graphic"@ || name
                == "zone"@ || name == "body"@ || name == "back"@ {
                assert(next.lines == state.lines && next.current == state.current);
            } else if name == "ab"@ {
                assert(next.lines == state.lines);
                assert(next.current is Some <==> state.current is Some);
            } else {
                assert(next.lines == state.lines && next.current == state.current);
            }
        },
        EventModel::End { name } => {
            let next = after_end(state, name);
            if name == "body"@ {
                assert(lines_begun(state.flushed()) == lines_begun(state));
                assert(lines_begun(next) == lines_begun(state.flushed()));
            } else {
                assert(next.lines == state.lines && next.current == state.current);
            }
        },
        EventModel::Empty { name, attrs } => {
            let next = after_empty(state, name, attrs);
            if name == "lb"@ && state.in_body {
                assert(next == state.with_line(attrs));
                assert(lines_begun(state.flushed()) == lines_begun(state));
            } else {
                assert(next.lines == state.lines && next.current == state.current);
            }
        },
        _ => {},
    }
}

/// From any state on, the document has one line for each line begun so
/// far and one for each line break still to be met in the body.
pub proof fn lemma_lines_follow_breaks(events: Seq<EventModel>, pos: int, state: DriverModel)
    ensures
        driven(events, pos, state).document().lines.len() == lines_begun(state) + line_breaks(
            events,
            pos,
            state,
        ),
    decreases remaining(events, pos),
{
    if pos < 0 || pos >= events.len() || events[pos] is Eof {
    } else {
        let next = after_event(events, pos, state);
        lemma_lines_follow_breaks(events, pos + 1 + next.1, next.0);
        lemma_event_lines(events, pos, state);
    }
}

/// A document has exactly as many lines as line breaks are met in its
/// body.
pub proof fn lemma_line_count(events: Seq<EventModel>)
    ensures
        document_of(events).lines.len() == line_breaks(events, 0, DriverModel::initial()),
{
    lemma_lines_follow_breaks(events, 0, DriverModel::initial());
}

/// A `zone` tag without an `xml:id`, or with an empty one, leaves the
/// state, and so the zones, as they are.
pub proof fn lemma_unnamed_zone_is_dropped(state: DriverModel, attrs: Seq<(Seq<char>, Seq<char>)>)
    requires
        attr_text(attrs, "xml:id"@).len() == 0,
    ensures
        state.with_zone(attrs) == state,
{
}

/// Whether every zone of `state` is held under an id that is not empty.
pub open spec fn zones_named(state: DriverModel) -> bool {
    forall|id: Seq<char>| #[trigger] state.facsimile.zones.dom().contains(id) ==> id.len() > 0
}

/// No event puts a zone under the empty id.
pub proof fn lemma_event_keeps_zones_named(events: Seq<EventModel>, pos: int, state: DriverModel)
    requires
        0 <= pos < events.len(),
        zones_named(state),
    ensures
        zones_named(after_event(events, pos, state).0),
{
    let next = after_event(events, pos, state).0;
    match events[pos] {
        EventModel::Start { name, attrs } => {
            if name == "zone"@ && !(name == "facsimile"@ || name == "surface"@ || name
                == "graphic"@) && state.in_facsimile {
                assert(next == state.with_zone(attrs));
            } else {
                assert(next.facsimile.zones == state.facsimile.zones);
            }
        },
        EventModel::Empty { name, attrs } => {
            if state.in_facsimile && name == "zone"@ && name != "graphic"@ {
                assert(next == state.with_zone(attrs));
            } else {
                assert(next.facsimile.zones == state.facsimile.zones);
            }
        },
        EventModel::End { name } => {
            assert(next.facsimile.zones == state.facsimile.zones);
        },
        _ => {},
    }
}

/// From a state without a zone under the empty id, the end of the stream
/// is reached without one.
pub proof fn lemma_zones_stay_named(events: Seq<EventModel>, pos: int, state: DriverModel)
    requires
        zones_named(state),
    ensures
        zones_named(driven(events, pos, state)),
    decreases remaining(events, pos),
{
    if pos < 0 || pos >= events.len() || events[pos] is Eof {
    } else {
        let next = after_event(events, pos, state);
        lemma_event_keeps_zones_named(events, pos, state);
        lemma_zones_stay_named(events, pos + 1 + next.1, next.0);
    }
}

/// Every zone of a document is held under an id that is not empty: a zone
/// without an id is in no document.
pub proof fn lemma_zones_have_ids(events: Seq<EventModel>)
    ensures
        forall|id: Seq<char>| #[trigger]
            document_of(events).facsimile.zones.dom().contains(id) ==> id.len() > 0,
{
    lemma_zones_stay_named(events, 0, DriverModel::initial());
}

/// A footnote without a label, or with an empty one, is labelled with its
/// place among the footnotes, counted from 1.
pub proof fn lemma_unlabelled_footnote(
    state: DriverModel,
    attrs: Seq<(Seq<char>, Seq<char>)>,
    text: Seq<char>,
)
    requires
        attr_text(attrs, "n"@).len() == 0,
    ensures
        state.with_footnote(attrs, text).footnotes.len() == state.footnotes.len() + 1,
        state.with_footnote(attrs, text).footnotes.last().n == decimal_text(
            state.footnotes.len() + 1,
        ),
{
}

/// Where the stream ends right after a line break met in the body, the
/// document ends with the line of that break, and that line is empty.
pub proof fn lemma_line_break_before_end(
    events: Seq<EventModel>,
    pos: int,
    state: DriverModel,
)
    requires
        0 <= pos < events.len(),
        opens_line(events, pos, state),
        pos + 1 >= events.len() || events[pos + 1] is Eof,
    ensures
        driven(events, pos, state).document().lines.len() == lines_begun(state) + 1,
        driven(events, pos, state).document().lines.last().content.len() == 0,
        events[pos] matches EventModel::Empty { name, attrs } ==> driven(
            events,
            pos,
            state,
        ).document().lines.last().facs == without_leading(attr_text(attrs, "facs"@), '#'),
{
    lemma_lb_is_distinct();
    lemma_event_lines(events, pos, state);
    let next = after_event(events, pos, state);
    assert(next.1 == 0);
    assert(driven(events, pos, state) == driven(events, pos + 1, next.0));
    assert(driven(events, pos + 1, next.0) == next.0);
    match events[pos] {
        EventModel::Start { name, attrs } => {
            assert(next.0 == state.with_line(attrs));
        },
        EventModel::Empty { name, attrs } => {
            assert(next.0 == state.with_line(attrs));
        },
        _ => {},
    }
}

/// The value of an optional line.
pub open spec fn line_view(line: Option<Line>) -> Option<LineModel> {
    match line {
        Some(l) => Some(l@),
        None => None,
    }
}

/// What the parser holds between two events.
struct Driver {
    metadata: Metadata,
    facsimile: Facsimile,
    lines: Vec<Line>,
    current: Option<Line>,
    footnotes: Vec<Footnote>,
    buffer: String,
    in_body: bool,
    in_facsimile: bool,
    in_notes_div: bool,
}

impl View for Driver {
    type V = DriverModel;

    closed spec fn view(&self) -> DriverModel {
        DriverModel {
            metadata: self.metadata@,
            facsimile: self.facsimile@,
            lines: lines_view(self.lines@),
            current: line_view(self.current),
            footnotes: footnotes_view(self.footnotes@),
            buffer: self.buffer@,
            in_body: self.in_body,
            in_facsimile: self.in_facsimile,
            in_notes_div: self.in_notes_div,
        }
    }
}

/// Whether a `div` with the attributes `attrs` holds footnotes.
fn holds_notes(attrs: &Vec<(String, String)>) -> (r: bool)
    ensures
        r == opens_notes(pairs_view(attrs@)),
{
    let ghost pairs = pairs_view(attrs@);
    let mut i: usize = 0;
    while i < attrs.len()
        invariant
            i <= attrs.len(),
            pairs == pairs_view(attrs@),
            forall|k: int|
                0 <= k < i ==> !((#[trigger] pairs[k]).0 == "type"@ && (pairs[k].1 == "notes"@
                    || pairs[k].1 == "note"@)),
        decreases attrs.len() - i,
    {
        if attrs[i].0.as_str().eq("type") && (attrs[i].1.as_str().eq("notes")
            || attrs[i].1.as_str().eq("note")) {
            proof {
                assert(pairs[i as int].0 == "type"@);
            }
            return true;
        }
        i = i + 1;
    }
    false
}

/// The id of a footnote with the attributes `attrs`.
fn read_footnote_id(attrs: &Vec<(String, String)>) -> (id: String)
    ensures
        id@ == footnote_id(pairs_view(attrs@)),
{
    let ghost pairs = pairs_view(attrs@);
    let mut i: usize = attrs.len();
    proof {
        assert(pairs.take(i as int) =~= pairs);
    }
    while i > 0
        invariant
            i <= attrs.len(),
            pairs == pairs_view(attrs@),
            footnote_id(pairs) == footnote_id(pairs.take(i as int)),
        decreases i,
    {
        i = i - 1;
        proof {
            assert(pairs.take(i + 1).drop_last() =~= pairs.take(i as int));
            assert(pairs.take(i + 1).last() == pairs[i as int]);
        }
        if attrs[i].0.as_str().eq("xml:id") || attrs[i].0.as_str().eq("id") {
            return attrs[i].1.clone();
        }
    }
    String::new()
}

impl Driver {
    /// The zones of the page have distinct ids, none of them empty.
    spec fn sound(&self) -> bool {
        self.facsimile.well_formed()
    }

    fn new() -> (driver: Driver)
        ensures
            driver@ == DriverModel::initial(),
            driver.sound(),
    {
        let driver = Driver {
            metadata: Metadata::default(),
            facsimile: Facsimile::default(),
            lines: Vec::new(),
            current: None,
            footnotes: Vec::new(),
            buffer: String::new(),
            in_body: false,
            in_facsimile: false,
            in_notes_div: false,
        };
        proof {
            assert(lines_view(driver.lines@) =~= Seq::empty());
            assert(footnotes_view(driver.footnotes@) =~= Seq::empty());
        }
        driver
    }

    fn flush_line(&mut self)
        ensures
            final(self)@ == old(self)@.flushed(),
            old(self).sound() ==> final(self).sound(),
    {
        match self.current.take() {
            Some(line) => {
                proof {
                    lemma_lines_view_push(self.lines@, line);
                }
                self.lines.push(line);
            },
            None => {},
        }
    }

    fn open_line(&mut self, attrs: &Vec<(String, String)>)
        ensures
            final(self)@ == old(self)@.with_line(pairs_view(attrs@)),
            old(self).sound() ==> final(self).sound(),
    {
        self.flush_line();
        let target = attr_string(attrs, "facs");
        let line = Line { facs: strip_leading(target.as_str(), '#'), content: Vec::new() };
        proof {
            assert(nodes_view(line.content@) =~= Seq::empty());
        }
        self.current = Some(line);
        self.buffer = String::new();
    }

    fn set_surface(&mut self, attrs: &Vec<(String, String)>)
        ensures
            final(self)@ == old(self)@.with_surface(pairs_view(attrs@)),
            old(self).sound() ==> final(self).sound(),
    {
        match find_attr(attrs, "xml:id") {
            Some(id) => {
                self.facsimile.surface_id = id.clone();
            },
            None => {},
        }
    }

    fn set_graphic(&mut self, attrs: &Vec<(String, String)>)
        ensures
            final(self)@ == old(self)@.with_graphic(pairs_view(attrs@)),
            old(self).sound() ==> final(self).sound(),
    {
        match find_attr(attrs, "url") {
            Some(url) => {
                self.facsimile.image_url = url.clone();
            },
            None => {},
        }
        if find_attr(attrs, "width").is_some() {
            self.facsimile.width = attr_u32(attrs, "width");
        }
        if find_attr(attrs, "height").is_some() {
            self.facsimile.height = attr_u32(attrs, "height");
        }
    }

    fn add_zone(&mut self, attrs: &Vec<(String, String)>)
        ensures
            final(self)@ == old(self)@.with_zone(pairs_view(attrs@)),
            old(self).sound() ==> final(self).sound(),
    {
        let points = match find_attr(attrs, "points") {
            Some(list) => parse_points_allow_float(list.as_str()),
            None => Vec::new(),
        };
        let zone = Zone {
            id: attr_string(attrs, "xml:id"),
            zone_type: attr_string(attrs, "type"),
            points,
        };
        proof {
            assert(zone@ == zone_of(pairs_view(attrs@)));
        }
        self.facsimile.insert_zone(zone);
    }

    fn add_content(&mut self, nodes: Vec<TextNode>)
        ensures
            final(self)@ == old(self)@.with_content(nodes_view(nodes@)),
            old(self).sound() ==> final(self).sound(),
    {
        let mut nodes = nodes;
        match self.current.take() {
            Some(line) => {
                let mut line = line;
                proof {
                    lemma_nodes_view_concat(line.content@, nodes@);
                }
                line.content.append(&mut nodes);
                self.current = Some(line);
            },
            None => {},
        }
    }

    fn add_footnote(&mut self, attrs: &Vec<(String, String)>, text: String)
        ensures
            final(self)@ == old(self)@.with_footnote(pairs_view(attrs@), text@),
            old(self).sound() ==> final(self).sound(),
    {
        let id = read_footnote_id(attrs);
        let mut n = attr_string(attrs, "n");
        if n.as_str().is_empty() {
            proof {
                assert(n@ + decimal_text((self.footnotes.len() + 1) as nat) =~= decimal_text(
                    (self.footnotes.len() + 1) as nat,
                ));
            }
            push_decimal(&mut n, self.footnotes.len() as u128 + 1);
        }
        let note = Footnote { id, n, content: text };
        proof {
            lemma_footnotes_view_push(self.footnotes@, note);
        }
        self.footnotes.push(note);
    }

    fn close_field(&mut self, name: &str)
        ensures
            final(self)@ == old(self)@.with_field_closed(name@),
            old(self).sound() ==> final(self).sound(),
    {
        let mut text = String::new();
        core::mem::swap(&mut text, &mut self.buffer);
        if !text.as_str().is_empty() {
            if name.eq("title") {
                self.metadata.title = text;
            } else if name.eq("author") {
                self.metadata.author = text;
            } else if name.eq("editor") {
                self.metadata.editor = text;
            } else if name.eq("edition") {
                self.metadata.edition_type = text;
            } else if name.eq("language") {
                self.metadata.language = text;
            } else if name.eq("country") {
                self.metadata.country = Some(text);
            } else if name.eq("settlement") {
                self.metadata.settlement = Some(text);
            } else if name.eq("institution") {
                self.metadata.institution = Some(text);
            } else if name.eq("collection") {
                self.metadata.collection = Some(text);
            }
        }
    }

    fn start(
        &mut self,
        events: &Vec<XmlEvent>,
        pos: usize,
        name: &str,
        attrs: &Vec<(String, String)>,
    ) -> (next: usize)
        requires
            pos < events.len(),
        ensures
            final(self)@ == after_start(
                events_view(events@),
                pos as int,
                old(self)@,
                name@,
                pairs_view(attrs@),
            ).0,
            next == pos + 1 + after_start(
                events_view(events@),
                pos as int,
                old(self)@,
                name@,
                pairs_view(attrs@),
            ).1,
            next <= events.len(),
            old(self).sound() ==> final(self).sound(),
    {
        if name.eq("facsimile") {
            self.in_facsimile = true;
        } else if name.eq("surface") {
            if self.in_facsimile {
                self.set_surface(attrs);
            }
        } else if name.eq("graphic") {
            if self.in_facsimile {
                self.set_graphic(attrs);
            }
        } else if name.eq("zone") {
            if self.in_facsimile {
                self.add_zone(attrs);
            }
        } else if name.eq("body") {
            self.in_body = true;
            self.in_facsimile = false;
        } else if name.eq("back") {
            self.in_body = false;
            self.in_facsimile = false;
        } else if name.eq("lb") {
            if self.in_body {
                self.open_line(attrs);
            }
        } else if name.eq("ab") {
            if self.in_body && self.current.is_some() && !self.in_notes_div {
                let (nodes, next) = parse_inline_nodes(events, pos + 1, name);
                self.add_content(nodes);
                return next;
            }
        } else if name.eq("div") {
            if holds_notes(attrs) {
                self.in_notes_div = true;
            }
        } else if name.eq("note") {
            if self.in_notes_div {
                let (text, next) = collect_text(events, pos + 1, name);
                self.add_footnote(attrs, text);
                return next;
            }
        } else if is_field_name(name) {
            self.buffer = String::new();
        }
        pos + 1
    }

    fn end(&mut self, name: &str)
        ensures
            final(self)@ == after_end(old(self)@, name@),
            old(self).sound() ==> final(self).sound(),
    {
        if name.eq("facsimile") {
            self.in_facsimile = false;
        } else if name.eq("div") {
            self.in_notes_div = false;
        } else if name.eq("body") {
            self.flush_line();
            self.in_body = false;
            self.in_notes_div = false;
        } else if is_field_name(name) {
            self.close_field(name);
        }
    }

    fn empty(&mut self, name: &str, attrs: &Vec<(String, String)>)
        ensures
            final(self)@ == after_empty(old(self)@, name@, pairs_view(attrs@)),
            old(self).sound() ==> final(self).sound(),
    {
        if self.in_facsimile && name.eq("graphic") {
            self.set_graphic(attrs);
        } else if self.in_facsimile && name.eq("zone") {
            self.add_zone(attrs);
        } else if name.eq("lb") && self.in_body {
            self.open_line(attrs);
        }
    }

    fn step(&mut self, events: &Vec<XmlEvent>, pos: usize) -> (next: usize)
        requires
            pos < events.len(),
        ensures
            final(self)@ == after_event(events_view(events@), pos as int, old(self)@).0,
            next == pos + 1 + after_event(events_view(events@), pos as int, old(self)@).1,
            next <= events.len(),
            old(self).sound() ==> final(self).sound(),
    {
        proof {
            assert(events_view(events@)[pos as int] == events@[pos as int]@);
        }
        match &events[pos] {
            XmlEvent::Start { name, attrs } => self.start(events, pos, name.as_str(), attrs),
            XmlEvent::End { name } => {
                self.end(name.as_str());
                pos + 1
            },
            XmlEvent::Empty { name, attrs } => {
                self.empty(name.as_str(), attrs);
                pos + 1
            },
            XmlEvent::Text { content } => {
                let text = normalize_whitespace(content.as_str());
                push_text(&mut self.buffer, text.as_str());
                pos + 1
            },
            _ => pos + 1,
        }
    }

    fn into_document(self) -> (document: TeiDocument)
        requires
            self.sound(),
        ensures
            document@ == self@.document(),
            document.facsimile.well_formed(),
    {
        let mut driver = self;
        driver.flush_line();
        TeiDocument {
            metadata: driver.metadata,
            facsimile: driver.facsimile,
            lines: driver.lines,
            footnotes: driver.footnotes,
        }
    }
}

/// Whether `name` names a bibliographic element.
fn is_field_name(name: &str) -> (r: bool)
    ensures
        r == is_field(name@),
{
    name.eq("title") || name.eq("author") || name.eq("editor") || name.eq("edition") || name.eq(
        "language",
    ) || name.eq("country") || name.eq("settlement") || name.eq("institution") || name.eq(
        "collection",
    )
}

/// Builds the document that the events `events` describe. No stream of
/// events is refused: what the parser does not know it passes over.
pub fn parse_events(events: &Vec<XmlEvent>) -> (document: TeiDocument)
    ensures
        document@ == document_of(events_view(events@)),
        document.facsimile.well_formed(),
        document.lines@.len() == line_breaks(events_view(events@), 0, DriverModel::initial()),
{
    let ghost stream = events_view(events@);
    let mut driver = Driver::new();
    let mut pos: usize = 0;
    while pos < events.len() && !is_end(&events[pos])
        invariant
            stream == events_view(events@),
            pos <= events.len(),
            driver.sound(),
            driven(stream, 0, DriverModel::initial()) == driven(stream, pos as int, driver@),
        decreases events.len() - pos,
    {
        proof {
            assert(stream[pos as int] == events@[pos as int]@);
        }
        pos = driver.step(events, pos);
    }
    proof {
        if pos < events.len() {
            assert(stream[pos as int] == events@[pos as int]@);
        }
        lemma_line_count(stream);
    }
    driver.into_document()
}

/// Whether `event` is the end of the stream.
fn is_end(event: &XmlEvent) -> (r: bool)
    ensures
        r == (event@ is Eof),
{
    match event {
        XmlEvent::Eof => true,
        _ => false,
    }
}

/// Parses the document `xml_content`.
///
/// The document is read into events by `quick_xml`. Where that reading
/// fails, the failure is returned with the offset at which it arose, and
/// no document. Where it comes to the end of the stream, the document that
/// the events describe is returned: missing attributes, unknown elements
/// and zones without an id are no failures. The document has one line for
/// each line break met in its body.
pub fn parse_tei_xml(xml_content: &str) -> (r: Result<TeiDocument, ParseError>)
    ensures
        is_reading(xml_outcomes(xml_content@)),
        match r {
            Ok(document) => {
                &&& xml_outcomes(xml_content@).last() is Event
                &&& document@ == document_of(events_read(xml_outcomes(xml_content@)))
                &&& document.facsimile.well_formed()
                &&& document.lines@.len() == line_breaks(
                    events_read(xml_outcomes(xml_content@)),
                    0,
                    DriverModel::initial(),
                )
            },
            Err(e) => xml_outcomes(xml_content@).last() == (Outcome::Failure {
                offset: e.offset as nat,
            }),
        },
{
    match tokenize(xml_content) {
        Ok(events) => Ok(parse_events(&events)),
        Err(e) => Err(e),
    }
}

} // verus!
