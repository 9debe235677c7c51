//! The document model: metadata, page-image geometry, transcribed lines of
//! typed inline nodes, and footnotes, each with the mathematical value that
//! contracts speak of.

use crate::points::{decoded_points, decode_points};
use vstd::prelude::*;

verus! {

/// The characters of each key and value of a list of string pairs.
pub open spec fn pairs_view(pairs: Seq<(String, String)>) -> Seq<(Seq<char>, Seq<char>)> {
    Seq::new(pairs.len(), |i: int| (pairs[i].0@, pairs[i].1@))
}

/// The characters of an optional string.
pub open spec fn option_view(text: Option<String>) -> Option<Seq<char>> {
    match text {
        Some(s) => Some(s@),
        None => None,
    }
}

/// One unit of transcribed content: plain prose or a classified span.
#[derive(Debug, PartialEq)]
#[allow(inconsistent_fields)]
pub enum TextNode {
    /// A literal run of prose.
    Text { content: String },
    /// An abbreviation with its expansion.
    Abbr { abbr: String, expan: String },
    /// A scribal reading with the editorial correction.
    Choice { sic: String, corr: String },
    /// An original spelling with its regularized form.
    Regularised { orig: String, reg: String },
    /// A numeral: its value (0 when it cannot be read), kind and display text.
    Num { value: u32, tipo: String, text: String },
    /// A person's name, whose content may nest further nodes.
    PersName {
        content: Vec<TextNode>,
        tipo: String,
        firstname: Option<String>,
        continued: Option<bool>,
        ref_uri: Option<String>,
    },
    /// A place name with the attributes of its tag, in document order.
    PlaceName { name: String, attrs: Vec<(String, String)> },
    /// A generic cross-reference.
    Ref { ref_type: String, target: String, content: String },
    /// Text flagged as uncertain, with the reason.
    Unclear { reason: String, content: String },
    /// A referring string classified by type.
    RsType { rs_type: String, content: String },
    /// An anchor to the footnote `note_id`, shown as `n`.
    NoteRef { note_id: String, n: String },
    /// A footnote whose text stands inline.
    InlineNote { content: String, n: String },
    /// A highlighted span; `rend` lists style keywords separated by spaces.
    Hi { rend: String, content: Vec<TextNode> },
}

/// The mathematical value of a [`TextNode`].
#[allow(inconsistent_fields)]
pub enum NodeModel {
    Text { content: Seq<char> },
    Abbr { abbr: Seq<char>, expan: Seq<char> },
    Choice { sic: Seq<char>, corr: Seq<char> },
    Regularised { orig: Seq<char>, reg: Seq<char> },
    Num { value: u32, tipo: Seq<char>, text: Seq<char> },
    PersName {
        content: Seq<NodeModel>,
        tipo: Seq<char>,
        firstname: Option<Seq<char>>,
        continued: Option<bool>,
        ref_uri: Option<Seq<char>>,
    },
    PlaceName { name: Seq<char>, attrs: Seq<(Seq<char>, Seq<char>)> },
    Ref { ref_type: Seq<char>, target: Seq<char>, content: Seq<char> },
    Unclear { reason: Seq<char>, content: Seq<char> },
    RsType { rs_type: Seq<char>, content: Seq<char> },
    NoteRef { note_id: Seq<char>, n: Seq<char> },
    InlineNote { content: Seq<char>, n: Seq<char> },
    Hi { rend: Seq<char>, content: Seq<NodeModel> },
}

impl View for TextNode {
    type V = NodeModel;

    open spec fn view(&self) -> NodeModel {
        self.model()
    }
}

impl TextNode {
    /// The value of the node, nested content included.
    pub open spec fn model(&self) -> NodeModel
        decreases self,
    {
        match self {
            TextNode::Text { content } => NodeModel::Text { content: content@ },
            TextNode::Abbr { abbr, expan } => NodeModel::Abbr { abbr: abbr@, expan: expan@ },
            TextNode::Choice { sic, corr } => NodeModel::Choice { sic: sic@, corr: corr@ },
            TextNode::Regularised { orig, reg } => NodeModel::Regularised {
                orig: orig@,
                reg: reg@,
            },
            TextNode::Num { value, tipo, text } => NodeModel::Num {
                value: *value,
                tipo: tipo@,
                text: text@,
            },
            TextNode::PersName { content, tipo, firstname, continued, ref_uri } => {
                NodeModel::PersName {
                    content: Seq::new(
                        content@.len(),
                        |i: int|
                            if 0 <= i < content@.len() {
                                content@[i].model()
                            } else {
                                NodeModel::Text { content: Seq::empty() }
                            },
                    ),
                    tipo: tipo@,
                    firstname: option_view(*firstname),
                    continued: *continued,
                    ref_uri: option_view(*ref_uri),
                }
            },
            TextNode::PlaceName { name, attrs } => NodeModel::PlaceName {
                name: name@,
                attrs: pairs_view(attrs@),
            },
            TextNode::Ref { ref_type, target, content } => NodeModel::Ref {
                ref_type: ref_type@,
                target: target@,
                content: content@,
            },
            TextNode::Unclear { reason, content } => NodeModel::Unclear {
                reason: reason@,
                content: content@,
            },
            TextNode::RsType { rs_type, content } => NodeModel::RsType {
                rs_type: rs_type@,
                content: content@,
            },
            TextNode::NoteRef { note_id, n } => NodeModel::NoteRef { note_id: note_id@, n: n@ },
            TextNode::InlineNote { content, n } => NodeModel::InlineNote {
                content: content@,
                n: n@,
            },
            TextNode::Hi { rend, content } => NodeModel::Hi {
                rend: rend@,
                content: Seq::new(
                    content@.len(),
                    |i: int|
                        if 0 <= i < content@.len() {
                            content@[i].model()
                        } else {
                            NodeModel::Text { content: Seq::empty() }
                        },
                ),
            },
        }
    }
}

/// The values of a sequence of nodes, in order.
pub open spec fn nodes_view(nodes: Seq<TextNode>) -> Seq<NodeModel> {
    Seq::new(nodes.len(), |i: int| nodes[i]@)
}

/// The value of a sequence with one more node is the value of the sequence
/// with the value of the node after it.
pub proof fn lemma_nodes_view_push(nodes: Seq<TextNode>, node: TextNode)
    ensures
        nodes_view(nodes.push(node)) == nodes_view(nodes).push(node@),
{
    assert(nodes_view(nodes.push(node)) =~= nodes_view(nodes).push(node@));
}

/// The value of two sequences of nodes joined is their values joined.
pub proof fn lemma_nodes_view_concat(a: Seq<TextNode>, b: Seq<TextNode>)
    ensures
        nodes_view(a + b) == nodes_view(a) + nodes_view(b),
{
    assert(nodes_view(a + b) =~= nodes_view(a) + nodes_view(b));
}

/// A copy of each node of `nodes`, in order.
fn clone_nodes(nodes: &Vec<TextNode>) -> (copy: Vec<TextNode>)
    ensures
        nodes_view(copy@) == nodes_view(nodes@),
    decreases nodes,
{
    let mut copy: Vec<TextNode> = Vec::new();
    let mut i: usize = 0;
    while i < nodes.len()
        invariant
            i <= nodes.len(),
            copy@.len() == i,
            forall|k: int| 0 <= k < i ==> (#[trigger] copy@[k])@ == nodes@[k]@,
        decreases nodes.len() - i,
    {
        copy.push(nodes[i].clone());
        i = i + 1;
    }
    proof {
        assert(nodes_view(copy@) =~= nodes_view(nodes@));
    }
    copy
}

impl Clone for TextNode {
    fn clone(&self) -> (copy: TextNode)
        ensures
            copy@ == self@,
        decreases self,
    {
        match self {
            TextNode::Text { content } => TextNode::Text { content: content.clone() },
            TextNode::Abbr { abbr, expan } => TextNode::Abbr {
                abbr: abbr.clone(),
                expan: expan.clone(),
            },
            TextNode::Choice { sic, corr } => TextNode::Choice {
                sic: sic.clone(),
                corr: corr.clone(),
            },
            TextNode::Regularised { orig, reg } => TextNode::Regularised {
                orig: orig.clone(),
                reg: reg.clone(),
            },
            TextNode::Num { value, tipo, text } => TextNode::Num {
                value: *value,
                tipo: tipo.clone(),
                text: text.clone(),
            },
            TextNode::PersName { content, tipo, firstname, continued, ref_uri } => {
                proof {
                    assert(self@->PersName_content =~= nodes_view(content@));
                }
                TextNode::pers_name(
                    clone_nodes(content),
                    tipo.clone(),
                    clone_text(firstname),
                    *continued,
                    clone_text(ref_uri),
                )
            },
            TextNode::PlaceName { name, attrs } => TextNode::PlaceName {
                name: name.clone(),
                attrs: clone_pairs(attrs),
            },
            TextNode::Ref { ref_type, target, content } => TextNode::Ref {
                ref_type: ref_type.clone(),
                target: target.clone(),
                content: content.clone(),
            },
            TextNode::Unclear { reason, content } => TextNode::Unclear {
                reason: reason.clone(),
                content: content.clone(),
            },
            TextNode::RsType { rs_type, content } => TextNode::RsType {
                rs_type: rs_type.clone(),
                content: content.clone(),
            },
            TextNode::NoteRef { note_id, n } => TextNode::NoteRef {
                note_id: note_id.clone(),
                n: n.clone(),
            },
            TextNode::InlineNote { content, n } => TextNode::InlineNote {
                content: content.clone(),
                n: n.clone(),
            },
            TextNode::Hi { rend, content } => {
                proof {
                    assert(self@->Hi_content =~= nodes_view(content@));
                }
                TextNode::hi(rend.clone(), clone_nodes(content))
            },
        }
    }
}

/// A copy of an optional text.
pub fn clone_text(text: &Option<String>) -> (copy: Option<String>)
    ensures
        option_view(copy) == option_view(*text),
{
    match text {
        Some(s) => Some(s.clone()),
        None => None,
    }
}

/// A copy of a list of string pairs.
pub fn clone_pairs(pairs: &Vec<(String, String)>) -> (copy: Vec<(String, String)>)
    ensures
        pairs_view(copy@) == pairs_view(pairs@),
{
    let mut copy: Vec<(String, String)> = Vec::new();
    let mut i: usize = 0;
    while i < pairs.len()
        invariant
            i <= pairs.len(),
            copy@.len() == i,
            forall|k: int|
                0 <= k < i ==> (#[trigger] copy@[k]).0@ == pairs@[k].0@ && copy@[k].1@
                    == pairs@[k].1@,
        decreases pairs.len() - i,
    {
        copy.push((pairs[i].0.clone(), pairs[i].1.clone()));
        i = i + 1;
    }
    proof {
        assert(pairs_view(copy@) =~= pairs_view(pairs@));
    }
    copy
}

impl TextNode {
    /// A highlighted span around `content`.
    pub fn hi(rend: String, content: Vec<TextNode>) -> (node: TextNode)
        ensures
            node@ == (NodeModel::Hi { rend: rend@, content: nodes_view(content@) }),
    {
        let node = TextNode::Hi { rend, content };
        proof {
            assert(node@->Hi_content =~= nodes_view(content@));
        }
        node
    }

    /// A person's name around `content`.
    pub fn pers_name(
        content: Vec<TextNode>,
        tipo: String,
        firstname: Option<String>,
        continued: Option<bool>,
        ref_uri: Option<String>,
    ) -> (node: TextNode)
        ensures
            node@ == (NodeModel::PersName {
                content: nodes_view(content@),
                tipo: tipo@,
                firstname: option_view(firstname),
                continued,
                ref_uri: option_view(ref_uri),
            }),
    {
        let node = TextNode::PersName { content, tipo, firstname, continued, ref_uri };
        proof {
            assert(node@->PersName_content =~= nodes_view(content@));
        }
        node
    }
}

/// A named polygonal region of the page image.
#[derive(Debug, Clone, PartialEq)]
pub struct Zone {
    pub id: String,
    pub zone_type: String,
    /// The polygon's corners in winding order, in declared-image pixels.
    pub points: Vec<(u32, u32)>,
}

/// The mathematical value of a [`Zone`].
pub struct ZoneModel {
    pub id: Seq<char>,
    pub zone_type: Seq<char>,
    pub points: Seq<(u32, u32)>,
}

impl View for Zone {
    type V = ZoneModel;

    open spec fn view(&self) -> ZoneModel {
        ZoneModel { id: self.id@, zone_type: self.zone_type@, points: self.points@ }
    }
}

/// Whether `frame` is the tightest axis-aligned box `(min_x, min_y, max_x,
/// max_y)` around `points`; the zero box stands for no points.
pub open spec fn is_bounding_box(points: Seq<(u32, u32)>, frame: (u32, u32, u32, u32)) -> bool {
    if points.len() == 0 {
        frame == (0u32, 0u32, 0u32, 0u32)
    } else {
        &&& forall|i: int|
            0 <= i < points.len() ==> frame.0 <= (#[trigger] points[i]).0 <= frame.2 && frame.1
                <= points[i].1 <= frame.3
        &&& exists|i: int| 0 <= i < points.len() && (#[trigger] points[i]).0 == frame.0
        &&& exists|i: int| 0 <= i < points.len() && (#[trigger] points[i]).1 == frame.1
        &&& exists|i: int| 0 <= i < points.len() && (#[trigger] points[i]).0 == frame.2
        &&& exists|i: int| 0 <= i < points.len() && (#[trigger] points[i]).1 == frame.3
    }
}

impl Zone {
    /// Decodes a list of `x,y` pairs of unsigned integers separated by
    /// whitespace, leaving out every token that is not such a pair.
    pub fn parse_points(points_str: &str) -> (points: Vec<(u32, u32)>)
        ensures
            points@ == decoded_points(points_str@, false),
    {
        decode_points(points_str, false)
    }

    /// The tightest box around the zone's points as `(min_x, min_y, max_x,
    /// max_y)`, or the zero box when it has none.
    pub fn get_bounding_box(&self) -> (frame: (u32, u32, u32, u32))
        ensures
            is_bounding_box(self.points@, frame),
    {
        if self.points.len() == 0 {
            return (0, 0, 0, 0);
        }
        let first = self.points[0];
        let mut min_x: u32 = first.0;
        let mut min_y: u32 = first.1;
        let mut max_x: u32 = first.0;
        let mut max_y: u32 = first.1;
        let mut i: usize = 1;
        proof {
            assert(self.points@.take(1)[0] == first);
        }
        while i < self.points.len()
            invariant
                1 <= i <= self.points.len(),
                is_bounding_box(self.points@.take(i as int), (min_x, min_y, max_x, max_y)),
            decreases self.points.len() - i,
        {
            let ghost seen = self.points@.take(i as int);
            let ghost next = self.points@.take(i + 1);
            let ghost old_frame = (min_x, min_y, max_x, max_y);
            let p = self.points[i];
            if p.0 < min_x {
                min_x = p.0;
            }
            if p.1 < min_y {
                min_y = p.1;
            }
            if p.0 > max_x {
                max_x = p.0;
            }
            if p.1 > max_y {
                max_y = p.1;
            }
            proof {
                assert(next[i as int] == p);
                assert forall|k: int| 0 <= k < seen.len() implies seen[k] == #[trigger] next[k] by {}
                let a = choose|k: int| 0 <= k < seen.len() && (#[trigger] seen[k]).0 == old_frame.0;
                let b = choose|k: int| 0 <= k < seen.len() && (#[trigger] seen[k]).1 == old_frame.1;
                let c = choose|k: int| 0 <= k < seen.len() && (#[trigger] seen[k]).0 == old_frame.2;
                let d = choose|k: int| 0 <= k < seen.len() && (#[trigger] seen[k]).1 == old_frame.3;
                assert(next[a] == seen[a] && next[b] == seen[b] && next[c] == seen[c] && next[d]
                    == seen[d]);
                assert forall|k: int| 0 <= k < next.len() implies min_x <= (#[trigger] next[k]).0
                    <= max_x && min_y <= next[k].1 <= max_y by {
                    if k < seen.len() {
                        assert(seen[k] == next[k]);
                    }
                }
            }
            i = i + 1;
        }
        proof {
            assert(self.points@.take(self.points.len() as int) =~= self.points@);
        }
        (min_x, min_y, max_x, max_y)
    }
}

/// One transcribed line of text.
#[derive(Debug, Clone, PartialEq)]
pub struct Line {
    /// The id of the zone the line was written in; no zone need carry it.
    pub facs: String,
    pub content: Vec<TextNode>,
}

/// The mathematical value of a [`Line`].
pub struct LineModel {
    pub facs: Seq<char>,
    pub content: Seq<NodeModel>,
}

impl View for Line {
    type V = LineModel;

    open spec fn view(&self) -> LineModel {
        LineModel { facs: self.facs@, content: nodes_view(self.content@) }
    }
}

/// The values of a sequence of lines, in order.
pub open spec fn lines_view(lines: Seq<Line>) -> Seq<LineModel> {
    Seq::new(lines.len(), |i: int| lines[i]@)
}

/// The value of a sequence with one more line is the value of the sequence
/// with the value of the line after it.
pub proof fn lemma_lines_view_push(lines: Seq<Line>, line: Line)
    ensures
        lines_view(lines.push(line)) == lines_view(lines).push(line@),
{
    assert(lines_view(lines.push(line)) =~= lines_view(lines).push(line@));
}

/// A footnote of the back matter.
#[derive(Debug, Clone, PartialEq)]
pub struct Footnote {
    pub id: String,
    /// The label shown for the note.
    pub n: String,
    pub content: String,
}

/// The mathematical value of a [`Footnote`].
pub struct FootnoteModel {
    pub id: Seq<char>,
    pub n: Seq<char>,
    pub content: Seq<char>,
}

impl View for Footnote {
    type V = FootnoteModel;

    open spec fn view(&self) -> FootnoteModel {
        FootnoteModel { id: self.id@, n: self.n@, content: self.content@ }
    }
}

/// The values of a sequence of footnotes, in order.
pub open spec fn footnotes_view(notes: Seq<Footnote>) -> Seq<FootnoteModel> {
    Seq::new(notes.len(), |i: int| notes[i]@)
}

/// The value of a sequence with one more footnote is the value of the
/// sequence with the value of the footnote after it.
pub proof fn lemma_footnotes_view_push(notes: Seq<Footnote>, note: Footnote)
    ensures
        footnotes_view(notes.push(note)) == footnotes_view(notes).push(note@),
{
    assert(footnotes_view(notes.push(note)) =~= footnotes_view(notes).push(note@));
}

/// Bibliographic fields of a document.
#[derive(Debug, Clone, PartialEq)]
pub struct Metadata {
    pub title: String,
    pub author: String,
    pub editor: String,
    pub edition_type: String,
    pub language: String,
    pub country: Option<String>,
    pub settlement: Option<String>,
    pub institution: Option<String>,
    pub collection: Option<String>,
    pub siglum: Option<String>,
}

/// The mathematical value of a [`Metadata`].
pub struct MetadataModel {
    pub title: Seq<char>,
    pub author: Seq<char>,
    pub editor: Seq<char>,
    pub edition_type: Seq<char>,
    pub language: Seq<char>,
    pub country: Option<Seq<char>>,
    pub settlement: Option<Seq<char>>,
    pub institution: Option<Seq<char>>,
    pub collection: Option<Seq<char>>,
    pub siglum: Option<Seq<char>>,
}

impl MetadataModel {
    /// Metadata with every text empty and every optional field absent.
    pub open spec fn empty() -> MetadataModel {
        MetadataModel {
            title: Seq::empty(),
            author: Seq::empty(),
            editor: Seq::empty(),
            edition_type: Seq::empty(),
            language: Seq::empty(),
            country: None,
            settlement: None,
            institution: None,
            collection: None,
            siglum: None,
        }
    }
}

impl View for Metadata {
    type V = MetadataModel;

    open spec fn view(&self) -> MetadataModel {
        MetadataModel {
            title: self.title@,
            author: self.author@,
            editor: self.editor@,
            edition_type: self.edition_type@,
            language: self.language@,
            country: option_view(self.country),
            settlement: option_view(self.settlement),
            institution: option_view(self.institution),
            collection: option_view(self.collection),
            siglum: option_view(self.siglum),
        }
    }
}

impl Default for Metadata {
    fn default() -> (metadata: Metadata)
        ensures
            metadata@ == MetadataModel::empty(),
    {
        Metadata {
            title: String::new(),
            author: String::new(),
            editor: String::new(),
            edition_type: String::new(),
            language: String::new(),
            country: None,
            settlement: None,
            institution: None,
            collection: None,
            siglum: None,
        }
    }
}

/// The zones of `zones` by id, a later zone replacing an earlier one of
/// the same id.
pub open spec fn zones_by_id(zones: Seq<Zone>) -> Map<Seq<char>, ZoneModel>
    decreases zones.len(),
{
    if zones.len() == 0 {
        Map::empty()
    } else {
        zones_by_id(zones.drop_last()).insert(zones.last().id@, zones.last()@)
    }
}

/// Whether no two zones of `zones` share an id.
pub open spec fn distinct_ids(zones: Seq<Zone>) -> bool {
    forall|i: int, j: int|
        0 <= i < j < zones.len() ==> (#[trigger] zones[i]).id@ != (#[trigger] zones[j]).id@
}

/// The description of one page image.
#[derive(Debug, Clone, PartialEq)]
pub struct Facsimile {
    pub surface_id: String,
    /// Where the image is found: relative, absolute or empty.
    pub image_url: String,
    /// Declared width in pixels; 0 when none is declared.
    pub width: u32,
    /// Declared height in pixels; 0 when none is declared.
    pub height: u32,
    /// The zones of the page, each id held by at most one of them.
    pub zones: Vec<Zone>,
}

/// The mathematical value of a [`Facsimile`].
pub struct FacsimileModel {
    pub surface_id: Seq<char>,
    pub image_url: Seq<char>,
    pub width: u32,
    pub height: u32,
    pub zones: Map<Seq<char>, ZoneModel>,
}

impl FacsimileModel {
    /// A page image of which nothing is declared.
    pub open spec fn empty() -> FacsimileModel {
        FacsimileModel {
            surface_id: Seq::empty(),
            image_url: Seq::empty(),
            width: 0,
            height: 0,
            zones: Map::empty(),
        }
    }
}

impl View for Facsimile {
    type V = FacsimileModel;

    open spec fn view(&self) -> FacsimileModel {
        FacsimileModel {
            surface_id: self.surface_id@,
            image_url: self.image_url@,
            width: self.width,
            height: self.height,
            zones: zones_by_id(self.zones@),
        }
    }
}

impl Default for Facsimile {
    fn default() -> (facsimile: Facsimile)
        ensures
            facsimile@ == FacsimileModel::empty(),
            facsimile.well_formed(),
    {
        Facsimile {
            surface_id: String::new(),
            image_url: String::new(),
            width: 0,
            height: 0,
            zones: Vec::new(),
        }
    }
}

/// Every id of the map is the id of some zone of the list, and the other
/// way round.
pub proof fn lemma_zone_ids(zones: Seq<Zone>, id: Seq<char>)
    ensures
        zones_by_id(zones).dom().contains(id) <==> exists|i: int|
            0 <= i < zones.len() && (#[trigger] zones[i]).id@ == id,
    decreases zones.len(),
{
    if zones.len() > 0 {
        let init = zones.drop_last();
        lemma_zone_ids(init, id);
        if zones.last().id@ == id {
            assert(zones[zones.len() - 1].id@ == id);
        } else if zones_by_id(init).dom().contains(id) {
            let i = choose|i: int| 0 <= i < init.len() && (#[trigger] init[i]).id@ == id;
            assert(zones[i] == init[i]);
        } else if exists|i: int| 0 <= i < zones.len() && (#[trigger] zones[i]).id@ == id {
            let i = choose|i: int| 0 <= i < zones.len() && (#[trigger] zones[i]).id@ == id;
            assert(init[i] == zones[i]);
        }
    }
}

/// The map holds under an id the last zone of the list that carries it.
pub proof fn lemma_zone_lookup(zones: Seq<Zone>, i: int)
    requires
        0 <= i < zones.len(),
        forall|k: int| i < k < zones.len() ==> (#[trigger] zones[k]).id@ != zones[i].id@,
    ensures
        zones_by_id(zones).dom().contains(zones[i].id@),
        zones_by_id(zones)[zones[i].id@] == zones[i]@,
    decreases zones.len(),
{
    let init = zones.drop_last();
    if i < zones.len() - 1 {
        assert forall|k: int| i < k < init.len() implies (#[trigger] init[k]).id@ != init[i].id@ by {
            assert(init[k] == zones[k] && init[i] == zones[i]);
        }
        lemma_zone_lookup(init, i);
        assert(init[i] == zones[i]);
        assert(zones[zones.len() - 1].id@ != zones[i].id@);
    }
}

/// Replacing the last zone that carries an id by another of that id
/// changes the map at that id only.
pub proof fn lemma_replaced_zone(before: Seq<Zone>, after: Seq<Zone>, i: int)
    requires
        0 <= i < before.len(),
        after.len() == before.len(),
        after[i].id@ == before[i].id@,
        forall|k: int| 0 <= k < before.len() && k != i ==> after[k] == before[k],
        forall|k: int| i < k < before.len() ==> (#[trigger] before[k]).id@ != before[i].id@,
    ensures
        zones_by_id(after) =~= zones_by_id(before).insert(after[i].id@, after[i]@),
        distinct_ids(before) ==> distinct_ids(after),
    decreases before.len(),
{
    if distinct_ids(before) {
        assert forall|a: int, b: int| 0 <= a < b < after.len() implies (#[trigger] after[a]).id@
            != (#[trigger] after[b]).id@ by {
            assert(after[a].id@ == before[a].id@ && after[b].id@ == before[b].id@);
        }
    }
    let n = before.len() - 1;
    let init_before = before.drop_last();
    let init_after = after.drop_last();
    if i == n {
        assert(init_before =~= init_after);
    } else {
        assert(init_after[i] == after[i] && init_before[i] == before[i]);
        assert forall|k: int| 0 <= k < init_before.len() && k != i implies init_after[k]
            == init_before[k] by {
            assert(init_after[k] == after[k] && init_before[k] == before[k]);
        }
        assert forall|k: int| i < k < init_before.len() implies (#[trigger] init_before[k]).id@
            != init_before[i].id@ by {
            assert(init_before[k] == before[k]);
        }
        lemma_replaced_zone(init_before, init_after, i);
        assert(after[n] == before[n]);
        assert(before[n].id@ != before[i].id@);
    }
}

impl Facsimile {
    /// The ids of the zones are distinct and none is empty.
    pub open spec fn well_formed(&self) -> bool {
        &&& distinct_ids(self.zones@)
        &&& forall|i: int| 0 <= i < self.zones@.len() ==> (#[trigger] self.zones@[i]).id@.len() > 0
    }

    /// The zone with the given id, if the page has one.
    pub fn get_zone(&self, id: &str) -> (found: Option<&Zone>)
        ensures
            match found {
                Some(zone) => self@.zones.dom().contains(id@) && zone@ == self@.zones[id@],
                None => !self@.zones.dom().contains(id@),
            },
    {
        let mut i: usize = self.zones.len();
        while i > 0
            invariant
                i <= self.zones.len(),
                forall|k: int| i <= k < self.zones.len() ==> (#[trigger] self.zones@[k]).id@ != id@,
            decreases i,
        {
            i = i - 1;
            if self.zones[i].id.as_str().eq(id) {
                proof {
                    lemma_zone_lookup(self.zones@, i as int);
                }
                return Some(&self.zones[i]);
            }
        }
        proof {
            lemma_zone_ids(self.zones@, id@);
        }
        None
    }

    /// Adds `zone` under its id, in place of the zone that held that id; a
    /// zone without an id is dropped.
    pub fn insert_zone(&mut self, zone: Zone)
        ensures
            old(self).well_formed() ==> final(self).well_formed(),
            final(self)@ == (FacsimileModel {
                zones: if zone.id@.len() == 0 {
                    old(self)@.zones
                } else {
                    old(self)@.zones.insert(zone.id@, zone@)
                },
                ..old(self)@
            }),
            final(self).zones@.len() == old(self).zones@.len() + if zone.id@.len() > 0 && !old(
                self,
            )@.zones.dom().contains(zone.id@) {
                1int
            } else {
                0int
            },
    {
        proof {
            reveal_strlit("");
        }
        if zone.id.as_str().eq("") {
            return ;
        }
        proof {
            if zone.id@.len() == 0 {
                assert(zone.id@ =~= ""@);
            }
        }
        let mut i: usize = self.zones.len();
        while i > 0
            invariant
                i <= self.zones.len(),
                *self == *old(self),
                zone.id@.len() > 0,
                forall|k: int|
                    i <= k < self.zones.len() ==> (#[trigger] self.zones@[k]).id@ != zone.id@,
            decreases i,
        {
            i = i - 1;
            if self.zones[i].id.as_str().eq(zone.id.as_str()) {
                let ghost before = self.zones@;
                let ghost id = zone.id@;
                let ghost value = zone@;
                self.zones.set(i, zone);
                proof {
                    lemma_replaced_zone(before, self.zones@, i as int);
                    lemma_zone_lookup(before, i as int);
                    assert(self@.zones == old(self)@.zones.insert(id, value));
                    if old(self).well_formed() {
                        assert forall|k: int| 0 <= k < self.zones@.len() implies (
                        #[trigger] self.zones@[k]).id@.len() > 0 by {
                            assert(self.zones@[k].id@ == before[k].id@);
                        }
                    }
                }
                return ;
            }
        }
        let ghost before = self.zones@;
        let ghost id = zone.id@;
        let ghost value = zone@;
        proof {
            lemma_zone_ids(before, id);
            assert(before.push(zone).drop_last() =~= before);
        }
        self.zones.push(zone);
        proof {
            assert(self@.zones == old(self)@.zones.insert(id, value));
            if old(self).well_formed() {
                assert forall|a: int, b: int| 0 <= a < b < self.zones@.len() implies (
                #[trigger] self.zones@[a]).id@ != (#[trigger] self.zones@[b]).id@ by {
                    assert(self.zones@[a] == before[a]);
                    if b < before.len() {
                        assert(self.zones@[b] == before[b]);
                    }
                }
                assert forall|k: int| 0 <= k < self.zones@.len() implies (
                #[trigger] self.zones@[k]).id@.len() > 0 by {
                    if k < before.len() {
                        assert(self.zones@[k] == before[k]);
                    }
                }
            }
        }
    }
}

/// A parsed document.
#[derive(Debug, Clone, PartialEq)]
pub struct TeiDocument {
    pub metadata: Metadata,
    pub facsimile: Facsimile,
    pub lines: Vec<Line>,
    pub footnotes: Vec<Footnote>,
}

/// The mathematical value of a [`TeiDocument`].
pub struct DocumentModel {
    pub metadata: MetadataModel,
    pub facsimile: FacsimileModel,
    pub lines: Seq<LineModel>,
    pub footnotes: Seq<FootnoteModel>,
}

impl DocumentModel {
    /// The document that holds nothing.
    pub open spec fn empty() -> DocumentModel {
        DocumentModel {
            metadata: MetadataModel::empty(),
            facsimile: FacsimileModel::empty(),
            lines: Seq::empty(),
            footnotes: Seq::empty(),
        }
    }
}

impl View for TeiDocument {
    type V = DocumentModel;

    open spec fn view(&self) -> DocumentModel {
        DocumentModel {
            metadata: self.metadata@,
            facsimile: self.facsimile@,
            lines: lines_view(self.lines@),
            footnotes: footnotes_view(self.footnotes@),
        }
    }
}

impl TeiDocument {
    /// The document that holds nothing.
    pub fn new() -> (document: TeiDocument)
        ensures
            document@ == DocumentModel::empty(),
            document.facsimile.well_formed(),
    {
        let document = TeiDocument {
            metadata: Metadata::default(),
            facsimile: Facsimile::default(),
            lines: Vec::new(),
            footnotes: Vec::new(),
        };
        proof {
            assert(lines_view(document.lines@) =~= Seq::empty());
            assert(footnotes_view(document.footnotes@) =~= Seq::empty());
        }
        document
    }
}

} // verus!
