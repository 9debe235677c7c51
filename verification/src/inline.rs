//! The inline-markup parser: from the events between an opening tag and
//! its closing tag to the typed nodes they stand for.

use crate::tei_data::{
    clone_pairs, lemma_nodes_view_concat, lemma_nodes_view_push, nodes_view, option_view,
    pairs_view, NodeModel, TextNode,
};
use crate::text::{normalize_whitespace, normalized, parse_u32, parsed_u32, push_text, strip_leading,
    without_leading};
use crate::xml_events::{events_view, EventModel, XmlEvent};
use vstd::prelude::*;
use vstd::string::StrSliceExecFns;

verus! {

/// The number of events from `pos` to the end of `events`; 0 for a place
/// outside the stream.
pub open spec fn remaining(events: Seq<EventModel>, pos: int) -> nat {
    if 0 <= pos < events.len() {
        (events.len() - pos) as nat
    } else {
        0
    }
}

/// The value of the last attribute of `attrs` with the key `key`.
pub open spec fn attr_value(attrs: Seq<(Seq<char>, Seq<char>)>, key: Seq<char>) -> Option<
    Seq<char>,
>
    decreases attrs.len(),
{
    if attrs.len() == 0 {
        None
    } else if attrs.last().0 == key {
        Some(attrs.last().1)
    } else {
        attr_value(attrs.drop_last(), key)
    }
}

/// The value of the attribute `key`, or the empty text where none has
/// that key.
pub open spec fn attr_text(attrs: Seq<(Seq<char>, Seq<char>)>, key: Seq<char>) -> Seq<char> {
    match attr_value(attrs, key) {
        Some(value) => value,
        None => Seq::empty(),
    }
}

/// The number that the attribute `key` holds; 0 where it is absent or
/// holds no `u32`.
pub open spec fn attr_number(attrs: Seq<(Seq<char>, Seq<char>)>, key: Seq<char>) -> u32 {
    match attr_value(attrs, key) {
        Some(value) => match parsed_u32(value) {
            Some(n) => n,
            None => 0,
        },
        None => 0,
    }
}

/// The text of an element and the number of events it takes, from `pos`
/// inside it to its closing tag.
///
/// The text is that of every text event on the way, nested elements
/// included, unchanged and in order. An opening tag named `tag` adds one to
/// `depth` and a closing tag named `tag` takes one off; the closing tag met
/// at depth 1 ends the element and is counted. The end of the stream ends
/// it too, and is not counted.
pub open spec fn text_span(events: Seq<EventModel>, pos: int, tag: Seq<char>, depth: nat) -> (
    Seq<char>,
    nat,
)
    decreases remaining(events, pos),
{
    if pos < 0 || pos >= events.len() {
        (Seq::empty(), 0)
    } else {
        match events[pos] {
            EventModel::Eof => (Seq::empty(), 0),
            EventModel::Text { content } => {
                let rest = text_span(events, pos + 1, tag, depth);
                (content + rest.0, rest.1 + 1)
            },
            EventModel::Start { name, .. } => {
                let rest = text_span(
                    events,
                    pos + 1,
                    tag,
                    if name == tag {
                        depth + 1
                    } else {
                        depth
                    },
                );
                (rest.0, rest.1 + 1)
            },
            EventModel::End { name } => {
                if name == tag && depth <= 1 {
                    (Seq::empty(), 1)
                } else {
                    let rest = text_span(
                        events,
                        pos + 1,
                        tag,
                        if name == tag {
                            (depth - 1) as nat
                        } else {
                            depth
                        },
                    );
                    (rest.0, rest.1 + 1)
                }
            },
            _ => {
                let rest = text_span(events, pos + 1, tag, depth);
                (rest.0, rest.1 + 1)
            },
        }
    }
}

/// The readings gathered inside a `choice` element, and which of its
/// parts are open.
pub struct ChoiceModel {
    pub sic: Seq<char>,
    pub corr: Seq<char>,
    pub abbr: Seq<char>,
    pub expan: Seq<char>,
    pub orig: Seq<char>,
    pub reg: Seq<char>,
    pub in_sic: bool,
    pub in_corr: bool,
    pub in_abbr: bool,
    pub in_expan: bool,
    pub in_orig: bool,
    pub in_reg: bool,
}

impl ChoiceModel {
    /// No reading gathered and no part open.
    pub open spec fn empty() -> ChoiceModel {
        ChoiceModel {
            sic: Seq::empty(),
            corr: Seq::empty(),
            abbr: Seq::empty(),
            expan: Seq::empty(),
            orig: Seq::empty(),
            reg: Seq::empty(),
            in_sic: false,
            in_corr: false,
            in_abbr: false,
            in_expan: false,
            in_orig: false,
            in_reg: false,
        }
    }

    /// The state after the opening (`open` set) or closing tag `name`.
    pub open spec fn marked(self, name: Seq<char>, open: bool) -> ChoiceModel {
        if name == "sic"@ {
            ChoiceModel { in_sic: open, ..self }
        } else if name == "corr"@ {
            ChoiceModel { in_corr: open, ..self }
        } else if name == "abbr"@ {
            ChoiceModel { in_abbr: open, ..self }
        } else if name == "expan"@ {
            ChoiceModel { in_expan: open, ..self }
        } else if name == "orig"@ {
            ChoiceModel { in_orig: open, ..self }
        } else if name == "reg"@ {
            ChoiceModel { in_reg: open, ..self }
        } else {
            self
        }
    }

    /// The state after the text `text`: it goes to the first open part in
    /// the order sic, corr, abbr, expan, orig, reg, and is dropped where
    /// none is open.
    pub open spec fn with_text(self, text: Seq<char>) -> ChoiceModel {
        if self.in_sic {
            ChoiceModel { sic: self.sic + text, ..self }
        } else if self.in_corr {
            ChoiceModel { corr: self.corr + text, ..self }
        } else if self.in_abbr {
            ChoiceModel { abbr: self.abbr + text, ..self }
        } else if self.in_expan {
            ChoiceModel { expan: self.expan + text, ..self }
        } else if self.in_orig {
            ChoiceModel { orig: self.orig + text, ..self }
        } else if self.in_reg {
            ChoiceModel { reg: self.reg + text, ..self }
        } else {
            self
        }
    }

    /// The nodes that the gathered readings make: an abbreviation where it
    /// or its expansion has text, else a correction where either reading
    /// has text, else a regularization where either spelling has text,
    /// else none.
    pub open spec fn nodes(self) -> Seq<NodeModel> {
        if self.abbr.len() > 0 || self.expan.len() > 0 {
            seq![NodeModel::Abbr { abbr: self.abbr, expan: self.expan }]
        } else if self.sic.len() > 0 || self.corr.len() > 0 {
            seq![NodeModel::Choice { sic: self.sic, corr: self.corr }]
        } else if self.orig.len() > 0 || self.reg.len() > 0 {
            seq![NodeModel::Regularised { orig: self.orig, reg: self.reg }]
        } else {
            Seq::empty()
        }
    }
}

/// The readings of a `choice` element and the number of events it takes,
/// from `pos` inside it in the state `state`. Its first closing tag named
/// `choice` ends it and is counted; the end of the stream ends it too.
pub open spec fn choice_span(events: Seq<EventModel>, pos: int, state: ChoiceModel) -> (
    ChoiceModel,
    nat,
)
    decreases remaining(events, pos),
{
    if pos < 0 || pos >= events.len() {
        (state, 0)
    } else {
        match events[pos] {
            EventModel::Eof => (state, 0),
            EventModel::Start { name, .. } => {
                let rest = choice_span(events, pos + 1, state.marked(name, true));
                (rest.0, rest.1 + 1)
            },
            EventModel::Text { content } => {
                let rest = choice_span(events, pos + 1, state.with_text(content));
                (rest.0, rest.1 + 1)
            },
            EventModel::End { name } => {
                if name == "choice"@ {
                    (state, 1)
                } else {
                    let rest = choice_span(events, pos + 1, state.marked(name, false));
                    (rest.0, rest.1 + 1)
                }
            },
            _ => {
                let rest = choice_span(events, pos + 1, state);
                (rest.0, rest.1 + 1)
            },
        }
    }
}

/// The plain-text nodes among `nodes`, in order.
pub open spec fn only_text(nodes: Seq<NodeModel>) -> Seq<NodeModel>
    decreases nodes.len(),
{
    if nodes.len() == 0 {
        Seq::empty()
    } else if nodes.last() is Text {
        only_text(nodes.drop_last()).push(nodes.last())
    } else {
        only_text(nodes.drop_last())
    }
}

/// The node of a `note` element with the attributes `attrs` and the text
/// `text`: an anchor where it names a target, else an inline note.
pub open spec fn note_node(attrs: Seq<(Seq<char>, Seq<char>)>, text: Seq<char>) -> NodeModel {
    let target = attr_text(attrs, "target"@);
    let n = attr_text(attrs, "n"@);
    if target.len() > 0 {
        NodeModel::NoteRef {
            note_id: without_leading(target, '#'),
            n: if text.len() > 0 {
                text
            } else {
                n
            },
        }
    } else {
        NodeModel::InlineNote { content: text, n }
    }
}

/// The node of a `ref` element with the attributes `attrs` and the text
/// `text`: a footnote anchor where its type is `note` and its target
/// starts with `#`, else a generic reference.
pub open spec fn ref_node(attrs: Seq<(Seq<char>, Seq<char>)>, text: Seq<char>) -> NodeModel {
    let ref_type = attr_text(attrs, "type"@);
    let target = attr_text(attrs, "target"@);
    if ref_type == "note"@ && target.len() > 0 && target[0] == '#' {
        NodeModel::NoteRef { note_id: without_leading(target, '#'), n: text }
    } else {
        NodeModel::Ref { ref_type, target, content: text }
    }
}

/// Whether `continued` is said of a person's name: what the attribute of
/// that name holds, read as `true` or not.
pub open spec fn continued_flag(attrs: Seq<(Seq<char>, Seq<char>)>) -> Option<bool> {
    match attr_value(attrs, "continued"@) {
        Some(value) => Some(value == "true"@),
        None => None,
    }
}

/// The nodes between `pos` and the closing tag named `tag`, and the number
/// of events they take.
///
/// The first closing tag named `tag` that is met at this level ends the
/// span and is counted; the end of the stream ends it too, and is not
/// counted. A text event gives a text node of its normalized text unless
/// that is empty. An opening tag gives the nodes of its element, which
/// takes its own events. Every other event gives nothing.
pub open spec fn inline_nodes(events: Seq<EventModel>, pos: int, tag: Seq<char>) -> (
    Seq<NodeModel>,
    nat,
)
    decreases remaining(events, pos), 1int,
{
    if pos < 0 || pos >= events.len() {
        (Seq::empty(), 0)
    } else {
        match events[pos] {
            EventModel::Eof => (Seq::empty(), 0),
            EventModel::End { name } => {
                if name == tag {
                    (Seq::empty(), 1)
                } else {
                    let rest = inline_nodes(events, pos + 1, tag);
                    (rest.0, rest.1 + 1)
                }
            },
            EventModel::Text { content } => {
                let rest = inline_nodes(events, pos + 1, tag);
                if normalized(content).len() > 0 {
                    (seq![NodeModel::Text { content: normalized(content) }] + rest.0, rest.1 + 1)
                } else {
                    (rest.0, rest.1 + 1)
                }
            },
            EventModel::Start { name, attrs } => {
                let element = inline_element(events, pos, name, attrs);
                let rest = inline_nodes(events, pos + 1 + element.1, tag);
                (element.0 + rest.0, rest.1 + 1 + element.1)
            },
            _ => {
                let rest = inline_nodes(events, pos + 1, tag);
                (rest.0, rest.1 + 1)
            },
        }
    }
}

/// The nodes of the element whose opening tag, named `name` with the
/// attributes `attrs`, stands at `pos`, and the number of events that
/// follow that tag as part of the element.
///
/// `choice` gives the node of its readings. `hi` and `persName` hold the
/// nodes of their content. `num`, `placeName`, `rs`, `note`, `ref` and
/// `unclear` hold the text of their content. Any other element is a
/// transparent wrapper: it gives the plain-text nodes of its content and
/// drops the others.
pub open spec fn inline_element(
    events: Seq<EventModel>,
    pos: int,
    name: Seq<char>,
    attrs: Seq<(Seq<char>, Seq<char>)>,
) -> (Seq<NodeModel>, nat)
    decreases remaining(events, pos), 0int,
{
    if pos < 0 || pos >= events.len() {
        (Seq::empty(), 0)
    } else if name == "choice"@ {
        let span = choice_span(events, pos + 1, ChoiceModel::empty());
        (span.0.nodes(), span.1)
    } else if name == "hi"@ {
        let content = inline_nodes(events, pos + 1, name);
        (seq![NodeModel::Hi { rend: attr_text(attrs, "rend"@), content: content.0 }], content.1)
    } else if name == "persName"@ {
        let content = inline_nodes(events, pos + 1, name);
        (
            seq![
                NodeModel::PersName {
                    content: content.0,
                    tipo: attr_text(attrs, "type"@),
                    firstname: attr_value(attrs, "firstname"@),
                    continued: continued_flag(attrs),
                    ref_uri: attr_value(attrs, "ref"@),
                },
            ],
            content.1,
        )
    } else if name == "num"@ || name == "placeName"@ || name == "rs"@ || name == "note"@ || name
        == "ref"@ || name == "unclear"@ {
        let span = text_span(events, pos + 1, name, 1);
        (seq![flat_node(name, attrs, span.0)], span.1)
    } else {
        let content = inline_nodes(events, pos + 1, name);
        (only_text(content.0), content.1)
    }
}

/// The node of an element named `name` that holds flat text.
pub open spec fn flat_node(name: Seq<char>, attrs: Seq<(Seq<char>, Seq<char>)>, text: Seq<char>)
    -> NodeModel {
    if name == "num"@ {
        NodeModel::Num {
            value: attr_number(attrs, "value"@),
            tipo: attr_text(attrs, "type"@),
            text,
        }
    } else if name == "placeName"@ {
        NodeModel::PlaceName { name: text, attrs }
    } else if name == "rs"@ {
        NodeModel::RsType { rs_type: attr_text(attrs, "type"@), content: text }
    } else if name == "note"@ {
        note_node(attrs, text)
    } else if name == "ref"@ {
        ref_node(attrs, text)
    } else {
        NodeModel::Unclear { reason: attr_text(attrs, "reason"@), content: text }
    }
}

/// An element of the same name inside a flat-text element does not end
/// it: its text is taken, and the span goes on behind its closing tag.
pub proof fn lemma_nested_element_is_passed(
    events: Seq<EventModel>,
    pos: int,
    tag: Seq<char>,
    depth: nat,
)
    requires
        depth >= 1,
        0 <= pos,
        pos + 2 < events.len(),
        events[pos] matches EventModel::Start { name, attrs } && name == tag,
        events[pos + 1] is Text,
        events[pos + 2] == (EventModel::End { name: tag }),
    ensures
        text_span(events, pos, tag, depth).0 == events[pos + 1]->Text_content + text_span(
            events,
            pos + 3,
            tag,
            depth,
        ).0,
        text_span(events, pos, tag, depth).1 == 3 + text_span(events, pos + 3, tag, depth).1,
{
    let inner = text_span(events, pos + 1, tag, depth + 1);
    let closing = text_span(events, pos + 2, tag, depth + 1);
    assert(text_span(events, pos, tag, depth) == (inner.0, inner.1 + 1));
    assert(inner == (events[pos + 1]->Text_content + closing.0, closing.1 + 1));
    let rest = text_span(events, pos + 3, tag, depth);
    assert(closing == (rest.0, rest.1 + 1));
}

/// Every plain-text node of `nodes` is among the nodes that `only_text`
/// keeps, and every node it keeps is a plain-text node of `nodes`.
pub proof fn lemma_only_text_keeps_text(nodes: Seq<NodeModel>)
    ensures
        forall|i: int|
            0 <= i < nodes.len() && (#[trigger] nodes[i]) is Text ==> only_text(nodes).contains(
                nodes[i],
            ),
        forall|j: int|
            0 <= j < only_text(nodes).len() ==> (#[trigger] only_text(nodes)[j]) is Text
                && nodes.contains(only_text(nodes)[j]),
    decreases nodes.len(),
{
    if nodes.len() > 0 {
        let init = nodes.drop_last();
        lemma_only_text_keeps_text(init);
        let kept = only_text(nodes);
        assert forall|i: int| 0 <= i < nodes.len() && (#[trigger] nodes[i]) is Text implies kept.contains(
            nodes[i],
        ) by {
            if i < init.len() {
                assert(init[i] == nodes[i]);
                let j = choose|j: int| 0 <= j < only_text(init).len() && only_text(init)[j] == init[i];
                assert(kept[j] == nodes[i]);
            } else {
                assert(kept[kept.len() - 1] == nodes[i]);
            }
        }
        assert forall|j: int| 0 <= j < kept.len() implies (#[trigger] kept[j]) is Text
            && nodes.contains(kept[j]) by {
            if j < only_text(init).len() {
                assert(kept[j] == only_text(init)[j]);
                let i = choose|i: int| 0 <= i < init.len() && init[i] == only_text(init)[j];
                assert(nodes[i] == kept[j]);
            } else {
                assert(nodes[nodes.len() - 1] == kept[j]);
            }
        }
    }
}

/// An element that the parser does not know is a transparent wrapper: it
/// gives the plain-text nodes of its content, and takes the events of that
/// content.
pub proof fn lemma_unknown_element_is_transparent(
    events: Seq<EventModel>,
    pos: int,
    name: Seq<char>,
    attrs: Seq<(Seq<char>, Seq<char>)>,
)
    requires
        0 <= pos < events.len(),
        name != "choice"@,
        name != "hi"@,
        name != "persName"@,
        name != "num"@,
        name != "placeName"@,
        name != "rs"@,
        name != "note"@,
        name != "ref"@,
        name != "unclear"@,
    ensures
        inline_element(events, pos, name, attrs).0 == only_text(
            inline_nodes(events, pos + 1, name).0,
        ),
        inline_element(events, pos, name, attrs).1 == inline_nodes(events, pos + 1, name).1,
{
}

/// The value of the last attribute of `attrs` with the key `key`.
pub fn find_attr<'a>(attrs: &'a Vec<(String, String)>, key: &str) -> (found: Option<&'a String>)
    ensures
        match found {
            Some(value) => attr_value(pairs_view(attrs@), key@) == Some(value@),
            None => attr_value(pairs_view(attrs@), key@) is None,
        },
{
    let ghost pairs = pairs_view(attrs@);
    let mut i: usize = attrs.len();
    proof {
        assert(pairs.take(i as int) =~= pairs);
    }
    while i > 0
        invariant
            i <= attrs.len(),
            pairs == pairs_view(attrs@),
            attr_value(pairs, key@) == attr_value(pairs.take(i as int), key@),
        decreases i,
    {
        i = i - 1;
        proof {
            assert(pairs.take(i + 1).drop_last() =~= pairs.take(i as int));
            assert(pairs.take(i + 1).last() == pairs[i as int]);
        }
        if attrs[i].0.as_str().eq(key) {
            return Some(&attrs[i].1);
        }
    }
    None
}

/// The value of the attribute `key`, or the empty text where none has
/// that key.
pub fn attr_string(attrs: &Vec<(String, String)>, key: &str) -> (text: String)
    ensures
        text@ == attr_text(pairs_view(attrs@), key@),
{
    match find_attr(attrs, key) {
        Some(value) => value.clone(),
        None => String::new(),
    }
}

/// The value of the attribute `key`, if one has that key.
pub fn attr_option(attrs: &Vec<(String, String)>, key: &str) -> (text: Option<String>)
    ensures
        option_view(text) == attr_value(pairs_view(attrs@), key@),
{
    match find_attr(attrs, key) {
        Some(value) => Some(value.clone()),
        None => None,
    }
}

/// The number that the attribute `key` holds; 0 where it is absent or
/// holds no `u32`.
pub fn attr_u32(attrs: &Vec<(String, String)>, key: &str) -> (n: u32)
    ensures
        n == attr_number(pairs_view(attrs@), key@),
{
    match find_attr(attrs, key) {
        Some(value) => match parse_u32(value.as_str()) {
            Some(n) => n,
            None => 0,
        },
        None => 0,
    }
}

/// Gathers the text of the element named `tag` from `pos` inside it, and
/// says where the events after the element start.
pub fn collect_text(events: &Vec<XmlEvent>, pos: usize, tag: &str) -> (r: (String, usize))
    requires
        pos <= events.len(),
    ensures
        r.0@ == text_span(events_view(events@), pos as int, tag@, 1).0,
        r.1 == pos + text_span(events_view(events@), pos as int, tag@, 1).1,
        r.1 <= events.len(),
{
    let ghost stream = events_view(events@);
    let mut text = String::new();
    let mut i: usize = pos;
    let mut nested: usize = 0;
    loop
        invariant
            stream == events_view(events@),
            pos <= i <= events.len(),
            nested <= i - pos,
            text_span(stream, pos as int, tag@, 1).0 == text@ + text_span(
                stream,
                i as int,
                tag@,
                (nested + 1) as nat,
            ).0,
            text_span(stream, pos as int, tag@, 1).1 == (i - pos) + text_span(
                stream,
                i as int,
                tag@,
                (nested + 1) as nat,
            ).1,
        decreases events.len() - i,
    {
        if i >= events.len() {
            proof {
                assert(text@ + Seq::<char>::empty() =~= text@);
            }
            return (text, i);
        }
        proof {
            assert(stream[i as int] == events@[i as int]@);
        }
        let ghost before = text@;
        let ghost rest = text_span(stream, i as int, tag@, (nested + 1) as nat);
        match &events[i] {
            XmlEvent::Eof => {
                proof {
                    assert(text@ + Seq::<char>::empty() =~= text@);
                }
                return (text, i);
            },
            XmlEvent::Text { content } => {
                push_text(&mut text, content.as_str());
                proof {
                    let next = text_span(stream, i + 1, tag@, (nested + 1) as nat);
                    assert(before + (content@ + next.0) =~= (before + content@) + next.0);
                }
            },
            XmlEvent::Start { name, .. } => {
                if name.as_str().eq(tag) {
                    nested = nested + 1;
                }
            },
            XmlEvent::End { name } => {
                if name.as_str().eq(tag) {
                    if nested == 0 {
                        proof {
                            assert(text@ + Seq::<char>::empty() =~= text@);
                        }
                        return (text, i + 1);
                    }
                    nested = nested - 1;
                }
            },
            _ => {},
        }
        i = i + 1;
    }
}

/// The readings gathered inside a `choice` element while it is read.
struct ChoiceParts {
    sic: String,
    corr: String,
    abbr: String,
    expan: String,
    orig: String,
    reg: String,
    in_sic: bool,
    in_corr: bool,
    in_abbr: bool,
    in_expan: bool,
    in_orig: bool,
    in_reg: bool,
}

impl View for ChoiceParts {
    type V = ChoiceModel;

    closed spec fn view(&self) -> ChoiceModel {
        ChoiceModel {
            sic: self.sic@,
            corr: self.corr@,
            abbr: self.abbr@,
            expan: self.expan@,
            orig: self.orig@,
            reg: self.reg@,
            in_sic: self.in_sic,
            in_corr: self.in_corr,
            in_abbr: self.in_abbr,
            in_expan: self.in_expan,
            in_orig: self.in_orig,
            in_reg: self.in_reg,
        }
    }
}

impl ChoiceParts {
    fn new() -> (parts: ChoiceParts)
        ensures
            parts@ == ChoiceModel::empty(),
    {
        ChoiceParts {
            sic: String::new(),
            corr: String::new(),
            abbr: String::new(),
            expan: String::new(),
            orig: String::new(),
            reg: String::new(),
            in_sic: false,
            in_corr: false,
            in_abbr: false,
            in_expan: false,
            in_orig: false,
            in_reg: false,
        }
    }

    fn mark(&mut self, name: &str, open: bool)
        ensures
            final(self)@ == old(self)@.marked(name@, open),
    {
        if name.eq("sic") {
            self.in_sic = open;
        } else if name.eq("corr") {
            self.in_corr = open;
        } else if name.eq("abbr") {
            self.in_abbr = open;
        } else if name.eq("expan") {
            self.in_expan = open;
        } else if name.eq("orig") {
            self.in_orig = open;
        } else if name.eq("reg") {
            self.in_reg = open;
        }
    }

    fn add_text(&mut self, text: &str)
        ensures
            final(self)@ == old(self)@.with_text(text@),
    {
        if self.in_sic {
            push_text(&mut self.sic, text);
        } else if self.in_corr {
            push_text(&mut self.corr, text);
        } else if self.in_abbr {
            push_text(&mut self.abbr, text);
        } else if self.in_expan {
            push_text(&mut self.expan, text);
        } else if self.in_orig {
            push_text(&mut self.orig, text);
        } else if self.in_reg {
            push_text(&mut self.reg, text);
        }
    }

    fn into_nodes(self) -> (nodes: Vec<TextNode>)
        ensures
            nodes_view(nodes@) == self@.nodes(),
    {
        let mut nodes: Vec<TextNode> = Vec::new();
        if !self.abbr.as_str().is_empty() || !self.expan.as_str().is_empty() {
            nodes.push(TextNode::Abbr { abbr: self.abbr, expan: self.expan });
        } else if !self.sic.as_str().is_empty() || !self.corr.as_str().is_empty() {
            nodes.push(TextNode::Choice { sic: self.sic, corr: self.corr });
        } else if !self.orig.as_str().is_empty() || !self.reg.as_str().is_empty() {
            nodes.push(TextNode::Regularised { orig: self.orig, reg: self.reg });
        }
        proof {
            assert(nodes_view(nodes@) =~= self@.nodes());
        }
        nodes
    }
}

/// Gathers the readings of a `choice` element from `pos` inside it, and
/// says where the events after the element start.
fn collect_choice(events: &Vec<XmlEvent>, pos: usize) -> (r: (Vec<TextNode>, usize))
    requires
        pos <= events.len(),
    ensures
        nodes_view(r.0@) == choice_span(
            events_view(events@),
            pos as int,
            ChoiceModel::empty(),
        ).0.nodes(),
        r.1 == pos + choice_span(events_view(events@), pos as int, ChoiceModel::empty()).1,
        r.1 <= events.len(),
{
    let ghost stream = events_view(events@);
    let mut parts = ChoiceParts::new();
    let mut i: usize = pos;
    loop
        invariant
            stream == events_view(events@),
            pos <= i <= events.len(),
            choice_span(stream, pos as int, ChoiceModel::empty()).0 == choice_span(
                stream,
                i as int,
                parts@,
            ).0,
            choice_span(stream, pos as int, ChoiceModel::empty()).1 == (i - pos) + choice_span(
                stream,
                i as int,
                parts@,
            ).1,
        decreases events.len() - i,
    {
        if i >= events.len() {
            return (parts.into_nodes(), i);
        }
        proof {
            assert(stream[i as int] == events@[i as int]@);
        }
        match &events[i] {
            XmlEvent::Eof => {
                return (parts.into_nodes(), i);
            },
            XmlEvent::Start { name, .. } => {
                parts.mark(name.as_str(), true);
            },
            XmlEvent::Text { content } => {
                parts.add_text(content.as_str());
            },
            XmlEvent::End { name } => {
                if name.as_str().eq("choice") {
                    return (parts.into_nodes(), i + 1);
                }
                parts.mark(name.as_str(), false);
            },
            _ => {},
        }
        i = i + 1;
    }
}

/// The plain-text nodes among `nodes`, in order.
fn keep_text(nodes: &Vec<TextNode>) -> (kept: Vec<TextNode>)
    ensures
        nodes_view(kept@) == only_text(nodes_view(nodes@)),
{
    let ghost all = nodes_view(nodes@);
    let mut kept: Vec<TextNode> = Vec::new();
    let mut i: usize = 0;
    proof {
        assert(nodes_view(kept@) =~= Seq::<NodeModel>::empty());
    }
    while i < nodes.len()
        invariant
            i <= nodes.len(),
            all == nodes_view(nodes@),
            nodes_view(kept@) == only_text(all.take(i as int)),
        decreases nodes.len() - i,
    {
        proof {
            assert(all.take(i + 1).drop_last() =~= all.take(i as int));
            assert(all.take(i + 1).last() == nodes@[i as int]@);
        }
        match &nodes[i] {
            TextNode::Text { content } => {
                let node = TextNode::Text { content: content.clone() };
                proof {
                    lemma_nodes_view_push(kept@, node);
                }
                kept.push(node);
            },
            _ => {},
        }
        i = i + 1;
    }
    proof {
        assert(all.take(nodes.len() as int) =~= all);
    }
    kept
}

/// The node of a `note` element with the attributes `attrs` and the text
/// `text`.
fn make_note(attrs: &Vec<(String, String)>, text: String) -> (node: TextNode)
    ensures
        node@ == note_node(pairs_view(attrs@), text@),
{
    let target = attr_string(attrs, "target");
    let n = attr_string(attrs, "n");
    if !target.as_str().is_empty() {
        let note_id = strip_leading(target.as_str(), '#');
        if !text.as_str().is_empty() {
            TextNode::NoteRef { note_id, n: text }
        } else {
            TextNode::NoteRef { note_id, n }
        }
    } else {
        TextNode::InlineNote { content: text, n }
    }
}

/// The node of a `ref` element with the attributes `attrs` and the text
/// `text`.
fn make_ref(attrs: &Vec<(String, String)>, text: String) -> (node: TextNode)
    ensures
        node@ == ref_node(pairs_view(attrs@), text@),
{
    let ref_type = attr_string(attrs, "type");
    let target = attr_string(attrs, "target");
    if ref_type.as_str().eq("note") && !target.as_str().is_empty() && target.as_str().get_char(0)
        == '#' {
        TextNode::NoteRef { note_id: strip_leading(target.as_str(), '#'), n: text }
    } else {
        TextNode::Ref { ref_type, target, content: text }
    }
}

/// The node of an element named `name` that holds the flat text `text`.
fn make_flat(name: &str, attrs: &Vec<(String, String)>, text: String) -> (node: TextNode)
    ensures
        node@ == flat_node(name@, pairs_view(attrs@), text@),
{
    if name.eq("num") {
        TextNode::Num { value: attr_u32(attrs, "value"), tipo: attr_string(attrs, "type"), text }
    } else if name.eq("placeName") {
        TextNode::PlaceName { name: text, attrs: clone_pairs(attrs) }
    } else if name.eq("rs") {
        TextNode::RsType { rs_type: attr_string(attrs, "type"), content: text }
    } else if name.eq("note") {
        make_note(attrs, text)
    } else if name.eq("ref") {
        make_ref(attrs, text)
    } else {
        TextNode::Unclear { reason: attr_string(attrs, "reason"), content: text }
    }
}

/// Whether an element named `name` holds flat text.
fn is_flat(name: &str) -> (r: bool)
    ensures
        r == (name@ == "num"@ || name@ == "placeName"@ || name@ == "rs"@ || name@ == "note"@
            || name@ == "ref"@ || name@ == "unclear"@),
{
    name.eq("num") || name.eq("placeName") || name.eq("rs") || name.eq("note") || name.eq("ref")
        || name.eq("unclear")
}

/// Reads the element whose opening tag, named `name` with the attributes
/// `attrs`, stands at `pos`: its nodes, and where the events after it
/// start.
pub fn parse_inline_element(
    events: &Vec<XmlEvent>,
    pos: usize,
    name: &str,
    attrs: &Vec<(String, String)>,
) -> (r: (Vec<TextNode>, usize))
    requires
        pos < events.len(),
    ensures
        nodes_view(r.0@) == inline_element(
            events_view(events@),
            pos as int,
            name@,
            pairs_view(attrs@),
        ).0,
        r.1 == pos + 1 + inline_element(
            events_view(events@),
            pos as int,
            name@,
            pairs_view(attrs@),
        ).1,
        r.1 <= events.len(),
    decreases events.len() - pos, 0int,
{
    let mut nodes: Vec<TextNode> = Vec::new();
    if name.eq("choice") {
        return collect_choice(events, pos + 1);
    } else if name.eq("hi") {
        let (content, next) = parse_inline_nodes(events, pos + 1, name);
        let node = TextNode::hi(attr_string(attrs, "rend"), content);
        nodes.push(node);
        proof {
            assert(nodes_view(nodes@) =~= seq![node@]);
        }
        (nodes, next)
    } else if name.eq("persName") {
        let (content, next) = parse_inline_nodes(events, pos + 1, name);
        let continued = match find_attr(attrs, "continued") {
            Some(value) => Some(value.as_str().eq("true")),
            None => None,
        };
        let node = TextNode::pers_name(
            content,
            attr_string(attrs, "type"),
            attr_option(attrs, "firstname"),
            continued,
            attr_option(attrs, "ref"),
        );
        nodes.push(node);
        proof {
            assert(nodes_view(nodes@) =~= seq![node@]);
        }
        (nodes, next)
    } else if is_flat(name) {
        let (text, next) = collect_text(events, pos + 1, name);
        let node = make_flat(name, attrs, text);
        nodes.push(node);
        proof {
            assert(nodes_view(nodes@) =~= seq![node@]);
        }
        (nodes, next)
    } else {
        let (content, next) = parse_inline_nodes(events, pos + 1, name);
        (keep_text(&content), next)
    }
}

/// Reads the nodes between `pos` and the closing tag named `break_tag`,
/// and says where the events after that tag start.
pub fn parse_inline_nodes(events: &Vec<XmlEvent>, pos: usize, break_tag: &str) -> (r: (
    Vec<TextNode>,
    usize,
))
    requires
        pos <= events.len(),
    ensures
        nodes_view(r.0@) == inline_nodes(events_view(events@), pos as int, break_tag@).0,
        r.1 == pos + inline_nodes(events_view(events@), pos as int, break_tag@).1,
        r.1 <= events.len(),
    decreases events.len() - pos, 1int,
{
    let ghost stream = events_view(events@);
    let mut nodes: Vec<TextNode> = Vec::new();
    let mut i: usize = pos;
    proof {
        assert(nodes_view(nodes@) + inline_nodes(stream, pos as int, break_tag@).0
            =~= inline_nodes(stream, pos as int, break_tag@).0);
    }
    loop
        invariant
            stream == events_view(events@),
            pos <= i <= events.len(),
            inline_nodes(stream, pos as int, break_tag@).0 == nodes_view(nodes@) + inline_nodes(
                stream,
                i as int,
                break_tag@,
            ).0,
            inline_nodes(stream, pos as int, break_tag@).1 == (i - pos) + inline_nodes(
                stream,
                i as int,
                break_tag@,
            ).1,
        decreases events.len() - i,
    {
        if i >= events.len() {
            proof {
                assert(nodes_view(nodes@) + Seq::<NodeModel>::empty() =~= nodes_view(nodes@));
            }
            return (nodes, i);
        }
        proof {
            assert(stream[i as int] == events@[i as int]@);
        }
        let ghost before = nodes_view(nodes@);
        match &events[i] {
            XmlEvent::Eof => {
                proof {
                    assert(before + Seq::<NodeModel>::empty() =~= before);
                }
                return (nodes, i);
            },
            XmlEvent::End { name } => {
                if name.as_str().eq(break_tag) {
                    proof {
                        assert(before + Seq::<NodeModel>::empty() =~= before);
                    }
                    return (nodes, i + 1);
                }
                i = i + 1;
            },
            XmlEvent::Text { content } => {
                let text = normalize_whitespace(content.as_str());
                if !text.as_str().is_empty() {
                    let node = TextNode::Text { content: text };
                    proof {
                        let rest = inline_nodes(stream, i + 1, break_tag@);
                        lemma_nodes_view_push(nodes@, node);
                        assert(before + (seq![node@] + rest.0) =~= before.push(node@) + rest.0);
                    }
                    nodes.push(node);
                }
                i = i + 1;
            },
            XmlEvent::Start { name, attrs } => {
                let (mut produced, next) = parse_inline_element(events, i, name.as_str(), attrs);
                proof {
                    let rest = inline_nodes(stream, next as int, break_tag@);
                    lemma_nodes_view_concat(nodes@, produced@);
                    assert(before + (nodes_view(produced@) + rest.0) =~= (before + nodes_view(
                        produced@,
                    )) + rest.0);
                }
                nodes.append(&mut produced);
                i = next;
            },
            _ => {
                i = i + 1;
            },
        }
    }
}

} // verus!
