//! Box-model layout: build a geometry tree from a styled tree and solve
//! widths, positions and heights in integer pixels.
use vstd::prelude::*;
use crate::css::{Unit, Value, ValueM};
use crate::style::{Display, StyledNode, StyledNodeM, display_of, lookup_of, sn_wf, sns_wf,
    styled_nodes_view, styled_node_view, lemma_sns_wf_index, lemma_styled_nodes_view_index,
    lemma_styled_nodes_view_len};
use crate::dom::{NodeType, NodeTypeM};

verus! {

/// Largest style length, text length and viewport extent the solver accepts.
pub const MAX_STYLE_PX: i64 = 65536;

/// Largest styled-tree node count the solver accepts.
pub const MAX_NODES: i64 = 65536;

/// Budget on containing-block coordinates during the solve; derived bounds
/// stay far below `i64` range.
pub const GEOM_LIMIT: i64 = 549755813888;

/// Bound on every field of every solved `Dimensions`.
pub const FIELD_LIMIT: i64 = 1099511627776;

/// Fixed per-character advance used for text sizing.
pub const CHAR_WIDTH_PX: i64 = 8;

/// Fixed line height used for text sizing.
pub const LINE_HEIGHT_PX: i64 = 16;

// ---------------------------------------------------------------------------
// Geometry
// ---------------------------------------------------------------------------

#[derive(Clone, Copy, Debug, PartialEq, Eq, Structural)]
pub struct Rect {
    pub x: i64,
    pub y: i64,
    pub width: i64,
    pub height: i64,
}

#[derive(Clone, Copy, Debug, PartialEq, Eq, Structural)]
pub struct EdgeSizes {
    pub left: i64,
    pub right: i64,
    pub top: i64,
    pub bottom: i64,
}

#[derive(Clone, Copy, Debug, PartialEq, Eq, Structural)]
pub struct Dimensions {
    pub content: Rect,
    pub padding: EdgeSizes,
    pub border: EdgeSizes,
    pub margin: EdgeSizes,
}

pub ghost struct RectM {
    pub x: int,
    pub y: int,
    pub width: int,
    pub height: int,
}

pub ghost struct EdgesM {
    pub left: int,
    pub right: int,
    pub top: int,
    pub bottom: int,
}

pub ghost struct DimsM {
    pub content: RectM,
    pub padding: EdgesM,
    pub border: EdgesM,
    pub margin: EdgesM,
}

impl View for Rect {
    type V = RectM;

    open spec fn view(&self) -> RectM {
        RectM {
            x: self.x as int,
            y: self.y as int,
            width: self.width as int,
            height: self.height as int,
        }
    }
}

impl View for EdgeSizes {
    type V = EdgesM;

    open spec fn view(&self) -> EdgesM {
        EdgesM {
            left: self.left as int,
            right: self.right as int,
            top: self.top as int,
            bottom: self.bottom as int,
        }
    }
}

impl View for Dimensions {
    type V = DimsM;

    open spec fn view(&self) -> DimsM {
        DimsM {
            content: self.content@,
            padding: self.padding@,
            border: self.border@,
            margin: self.margin@,
        }
    }
}

pub open spec fn rect_zero() -> RectM {
    RectM { x: 0, y: 0, width: 0, height: 0 }
}

pub open spec fn edges_zero() -> EdgesM {
    EdgesM { left: 0, right: 0, top: 0, bottom: 0 }
}

pub open spec fn dims_zero() -> DimsM {
    DimsM { content: rect_zero(), padding: edges_zero(), border: edges_zero(), margin: edges_zero() }
}

/// A rectangle grown outward by one ring of edges.
pub open spec fn spec_expanded_by(r: RectM, e: EdgesM) -> RectM {
    RectM {
        x: r.x - e.left,
        y: r.y - e.top,
        width: r.width + e.left + e.right,
        height: r.height + e.top + e.bottom,
    }
}

pub open spec fn spec_padding_box(d: DimsM) -> RectM {
    spec_expanded_by(d.content, d.padding)
}

pub open spec fn spec_border_box(d: DimsM) -> RectM {
    spec_expanded_by(spec_padding_box(d), d.border)
}

pub open spec fn spec_margin_box(d: DimsM) -> RectM {
    spec_expanded_by(spec_border_box(d), d.margin)
}

pub open spec fn rect_in_range(r: RectM) -> bool {
    &&& 0 <= r.x <= FIELD_LIMIT
    &&& 0 <= r.y <= FIELD_LIMIT
    &&& 0 <= r.width <= FIELD_LIMIT
    &&& 0 <= r.height <= FIELD_LIMIT
}

pub open spec fn edges_in_range(e: EdgesM) -> bool {
    &&& 0 <= e.left <= FIELD_LIMIT
    &&& 0 <= e.right <= FIELD_LIMIT
    &&& 0 <= e.top <= FIELD_LIMIT
    &&& 0 <= e.bottom <= FIELD_LIMIT
}

pub open spec fn dims_in_range(d: DimsM) -> bool {
    rect_in_range(d.content) && edges_in_range(d.padding) && edges_in_range(d.border)
        && edges_in_range(d.margin)
}

pub open spec fn rect_bounded(r: RectM, b: int) -> bool {
    &&& -b <= r.x <= b
    &&& -b <= r.y <= b
    &&& -b <= r.width <= b
    &&& -b <= r.height <= b
}

pub open spec fn edges_bounded(e: EdgesM, b: int) -> bool {
    &&& -b <= e.left <= b
    &&& -b <= e.right <= b
    &&& -b <= e.top <= b
    &&& -b <= e.bottom <= b
}

impl Rect {
    /// This rectangle grown outward by one ring of edges; top and bottom
    /// sizes are added to the height, mirroring the horizontal expansion.
    pub fn expanded_by(&self, edge: EdgeSizes) -> (r: Rect)
        requires
            rect_bounded(self@, 8 * (FIELD_LIMIT as int)),
            edges_bounded(edge@, 8 * (FIELD_LIMIT as int)),
        ensures
            r@ == spec_expanded_by(self@, edge@),
    {
        Rect {
            x: self.x - edge.left,
            y: self.y - edge.top,
            width: self.width + edge.left + edge.right,
            height: self.height + edge.top + edge.bottom,
        }
    }
}

impl Dimensions {
    /// Content area grown by the padding ring.
    pub fn padding_box(&self) -> (r: Rect)
        requires
            dims_in_range(self@),
        ensures
            r@ == spec_padding_box(self@),
            rect_bounded(r@, 3 * (FIELD_LIMIT as int)),
    {
        self.content.expanded_by(self.padding)
    }

    /// Padding box grown by the border ring.
    pub fn border_box(&self) -> (r: Rect)
        requires
            dims_in_range(self@),
        ensures
            r@ == spec_border_box(self@),
            rect_bounded(r@, 5 * (FIELD_LIMIT as int)),
    {
        self.padding_box().expanded_by(self.border)
    }

    /// Border box grown by the margin ring.
    pub fn margin_box(&self) -> (r: Rect)
        requires
            dims_in_range(self@),
        ensures
            r@ == spec_margin_box(self@),
            rect_bounded(r@, 7 * (FIELD_LIMIT as int)),
    {
        self.border_box().expanded_by(self.margin)
    }

    /// All-zero dimensions.
    pub fn zero() -> (r: Dimensions)
        ensures
            r@ == dims_zero(),
    {
        Dimensions {
            content: Rect { x: 0, y: 0, width: 0, height: 0 },
            padding: EdgeSizes { left: 0, right: 0, top: 0, bottom: 0 },
            border: EdgeSizes { left: 0, right: 0, top: 0, bottom: 0 },
            margin: EdgeSizes { left: 0, right: 0, top: 0, bottom: 0 },
        }
    }
}

// ---------------------------------------------------------------------------
// Layout boxes
// ---------------------------------------------------------------------------

#[derive(Debug)]
pub enum BoxType {
    BlockNode(StyledNode),
    InlineNode(StyledNode),
    AnonymousBlock,
}

#[derive(Debug)]
pub struct LayoutBox {
    pub dimensions: Dimensions,
    pub box_type: BoxType,
    pub children: Vec<LayoutBox>,
}

pub ghost enum BoxTypeM {
    BlockNode(StyledNodeM),
    InlineNode(StyledNodeM),
    AnonymousBlock,
}

pub ghost struct LayoutBoxM {
    pub dimensions: DimsM,
    pub box_type: BoxTypeM,
    pub children: Seq<LayoutBoxM>,
}

impl View for BoxType {
    type V = BoxTypeM;

    open spec fn view(&self) -> BoxTypeM {
        match self {
            BoxType::BlockNode(s) => BoxTypeM::BlockNode(styled_node_view(*s)),
            BoxType::InlineNode(s) => BoxTypeM::InlineNode(styled_node_view(*s)),
            BoxType::AnonymousBlock => BoxTypeM::AnonymousBlock,
        }
    }
}

pub open spec fn boxes_view(cs: Seq<LayoutBox>) -> Seq<LayoutBoxM>
    decreases cs,
{
    if cs.len() == 0 {
        Seq::empty()
    } else {
        boxes_view(cs.drop_last()).push(box_view(cs.last()))
    }
}

pub open spec fn box_view(b: LayoutBox) -> LayoutBoxM
    decreases b,
{
    LayoutBoxM {
        dimensions: b.dimensions@,
        box_type: b.box_type@,
        children: boxes_view(b.children@),
    }
}

impl View for LayoutBox {
    type V = LayoutBoxM;

    open spec fn view(&self) -> LayoutBoxM {
        box_view(*self)
    }
}

pub broadcast proof fn lemma_boxes_view_len(cs: Seq<LayoutBox>)
    ensures
        (#[trigger] boxes_view(cs)).len() == cs.len(),
    decreases cs,
{
    if cs.len() > 0 {
        lemma_boxes_view_len(cs.drop_last());
    }
}

pub broadcast proof fn lemma_boxes_view_index(cs: Seq<LayoutBox>, i: int)
    requires
        0 <= i < cs.len(),
    ensures
        #[trigger] boxes_view(cs)[i] == box_view(cs[i]),
    decreases cs,
{
    lemma_boxes_view_len(cs.drop_last());
    if i < cs.len() - 1 {
        lemma_boxes_view_index(cs.drop_last(), i);
    }
}

// ---------------------------------------------------------------------------
// Tree measures and well-formedness
// ---------------------------------------------------------------------------

pub open spec fn boxes_sizes(cs: Seq<LayoutBoxM>) -> int
    decreases cs,
{
    if cs.len() == 0 {
        0
    } else {
        boxes_sizes(cs.drop_last()) + box_size(cs.last())
    }
}

/// Number of boxes in a layout subtree.
pub open spec fn box_size(b: LayoutBoxM) -> int
    decreases b,
{
    1 + boxes_sizes(b.children)
}

pub broadcast proof fn lemma_box_size_pos(b: LayoutBoxM)
    ensures
        #[trigger] box_size(b) >= 1,
    decreases b,
{
    lemma_boxes_sizes_nonneg(b.children);
}

pub broadcast proof fn lemma_boxes_sizes_nonneg(cs: Seq<LayoutBoxM>)
    ensures
        #[trigger] boxes_sizes(cs) >= 0,
    decreases cs,
{
    if cs.len() > 0 {
        lemma_boxes_sizes_nonneg(cs.drop_last());
        lemma_box_size_pos(cs.last());
    }
}

pub proof fn lemma_boxes_sizes_concat(a: Seq<LayoutBoxM>, b: Seq<LayoutBoxM>)
    ensures
        boxes_sizes(a + b) == boxes_sizes(a) + boxes_sizes(b),
    decreases b,
{
    if b.len() == 0 {
        assert(a + b =~= a);
    } else {
        assert((a + b).drop_last() =~= a + b.drop_last());
        assert((a + b).last() == b.last());
        lemma_boxes_sizes_concat(a, b.drop_last());
    }
}

pub proof fn lemma_boxes_sizes_singleton(b: LayoutBoxM)
    ensures
        boxes_sizes(seq![b]) == box_size(b),
{
    reveal_with_fuel(boxes_sizes, 2);
    assert(seq![b].drop_last() =~= Seq::<LayoutBoxM>::empty());
    assert(seq![b].last() == b);
}

pub proof fn lemma_boxes_sizes_skip_succ(cs: Seq<LayoutBoxM>, k: int)
    requires
        0 <= k < cs.len(),
    ensures
        boxes_sizes(cs.skip(k)) == box_size(cs[k]) + boxes_sizes(cs.skip(k + 1)),
{
    assert(cs.skip(k) =~= seq![cs[k]] + cs.skip(k + 1));
    lemma_boxes_sizes_concat(seq![cs[k]], cs.skip(k + 1));
    assert(boxes_sizes(seq![cs[k]]) == box_size(cs[k])) by {
        reveal_with_fuel(boxes_sizes, 2);
        assert(seq![cs[k]].drop_last() =~= Seq::<LayoutBoxM>::empty());
        assert(seq![cs[k]].last() == cs[k]);
    }
}

/// Executable-level well-formedness: every property mapping in the tree has
/// unique names.
pub open spec fn boxes_wf(cs: Seq<LayoutBox>) -> bool
    decreases cs,
{
    cs.len() == 0 || (boxes_wf(cs.drop_last()) && box_wf(cs.last()))
}

pub open spec fn box_wf(b: LayoutBox) -> bool
    decreases b,
{
    &&& match b.box_type {
        BoxType::BlockNode(s) => s.specified_values.wf(),
        BoxType::InlineNode(s) => s.specified_values.wf(),
        BoxType::AnonymousBlock => true,
    }
    &&& boxes_wf(b.children@)
}

pub broadcast proof fn lemma_boxes_wf_index(cs: Seq<LayoutBox>, i: int)
    requires
        boxes_wf(cs),
        0 <= i < cs.len(),
    ensures
        #[trigger] box_wf(cs[i]),
    decreases cs,
{
    if i < cs.len() - 1 {
        lemma_boxes_wf_index(cs.drop_last(), i);
    }
}

/// Bounds on the style inputs a box tree carries: every length value and
/// every text leaf within `MAX_STYLE_PX`.
pub open spec fn value_ok(v: ValueM) -> bool {
    match v {
        ValueM::Length(px, _) => 0 <= px <= MAX_STYLE_PX,
        _ => true,
    }
}

pub open spec fn props_ok(m: Map<Seq<char>, ValueM>) -> bool {
    forall|k: Seq<char>| #[trigger] m.contains_key(k) ==> value_ok(m[k])
}

pub open spec fn styled_leaf_ok(st: StyledNodeM) -> bool {
    &&& props_ok(st.specified_values)
    &&& (st.node_data matches NodeTypeM::Text(s) ==> s.len() <= MAX_STYLE_PX)
}

pub open spec fn boxes_styles_ok(cs: Seq<LayoutBoxM>) -> bool
    decreases cs,
{
    cs.len() == 0 || (boxes_styles_ok(cs.drop_last()) && box_styles_ok(cs.last()))
}

pub open spec fn box_styles_ok(b: LayoutBoxM) -> bool
    decreases b,
{
    &&& match b.box_type {
        BoxTypeM::BlockNode(s) => styled_leaf_ok(s),
        BoxTypeM::InlineNode(s) => styled_leaf_ok(s),
        BoxTypeM::AnonymousBlock => true,
    }
    &&& boxes_styles_ok(b.children)
}

pub broadcast proof fn lemma_boxes_styles_ok_index(cs: Seq<LayoutBoxM>, i: int)
    requires
        boxes_styles_ok(cs),
        0 <= i < cs.len(),
    ensures
        #[trigger] box_styles_ok(cs[i]),
    decreases cs,
{
    if i < cs.len() - 1 {
        lemma_boxes_styles_ok_index(cs.drop_last(), i);
    }
}

// ---------------------------------------------------------------------------
// The width solver
// ---------------------------------------------------------------------------

pub ghost struct BlockWidthsM {
    pub width: int,
    pub margin_left: int,
    pub margin_right: int,
    pub border_left: int,
    pub border_right: int,
    pub padding_left: int,
    pub padding_right: int,
}

struct BlockWidths {
    width: i64,
    margin_left: i64,
    margin_right: i64,
    border_left: i64,
    border_right: i64,
    padding_left: i64,
    padding_right: i64,
}

/// One absorption step: the quantity gives up as much of the deficit as it
/// can without going below zero; the remainder passes on.
pub open spec fn spec_consume(underflow: int, value: int) -> (int, int) {
    let flow = value + underflow;
    if flow > 0 {
        (flow, 0int)
    } else {
        (0int, flow)
    }
}

pub open spec fn spec_px_of(m: Map<Seq<char>, ValueM>, name: Seq<char>, fallback: Seq<char>) -> int {
    lookup_of(m, name, fallback, ValueM::Length(0, Unit::Px)).to_px()
}

/// Solved horizontal quantities of a block box: read the seven width-related
/// values, compute the underflow against the containing width, then absorb a
/// deficit right-to-left or hand a surplus to `width` (when auto) or to
/// `margin-right`.
pub open spec fn spec_block_width(m: Map<Seq<char>, ValueM>, cbw: int) -> BlockWidthsM {
    let width_v = if m.contains_key("width"@) {
        m["width"@]
    } else {
        ValueM::Keyword("auto"@)
    };
    let w = width_v.to_px();
    let ml = spec_px_of(m, "margin-left"@, "margin"@);
    let mr = spec_px_of(m, "margin-right"@, "margin"@);
    let bl = spec_px_of(m, "border-left-width"@, "border-width"@);
    let br = spec_px_of(m, "border-right-width"@, "border-width"@);
    let pl = spec_px_of(m, "padding-left"@, "padding"@);
    let pr = spec_px_of(m, "padding-right"@, "padding"@);
    let total = mr + br + pr + pl + bl + ml + w;
    let u = cbw - total;
    if u < 0 {
        let s1 = spec_consume(u, mr);
        let s2 = spec_consume(s1.1, br);
        let s3 = spec_consume(s2.1, pr);
        let s4 = spec_consume(s3.1, pl);
        let s5 = spec_consume(s4.1, bl);
        let s6 = spec_consume(s5.1, ml);
        let s7 = spec_consume(s6.1, w);
        BlockWidthsM {
            width: s7.0,
            margin_left: s6.0,
            margin_right: s1.0,
            border_left: s5.0,
            border_right: s2.0,
            padding_left: s4.0,
            padding_right: s3.0,
        }
    } else if width_v.is_auto() {
        BlockWidthsM {
            width: u,
            margin_left: ml,
            margin_right: mr,
            border_left: bl,
            border_right: br,
            padding_left: pl,
            padding_right: pr,
        }
    } else {
        BlockWidthsM {
            width: w,
            margin_left: ml,
            margin_right: mr + u,
            border_left: bl,
            border_right: br,
            padding_left: pl,
            padding_right: pr,
        }
    }
}

fn px_lookup(style: &StyledNode, name: &str, fallback: &str) -> (r: i64)
    requires
        style.specified_values.wf(),
        props_ok(style@.specified_values),
    ensures
        r == spec_px_of(style@.specified_values, name@, fallback@),
        0 <= r <= MAX_STYLE_PX,
{
    let zero = Value::Length(0, Unit::Px);
    let v = style.lookup(name, fallback, &zero);
    proof {
        assert(value_ok(v@));
    }
    v.to_px()
}

fn consume_underflow(underflow: i64, value: i64) -> (r: (i64, i64))
    requires
        -(8 * MAX_STYLE_PX) <= underflow <= 0,
        0 <= value <= MAX_STYLE_PX,
    ensures
        r.0 == spec_consume(underflow as int, value as int).0,
        r.1 == spec_consume(underflow as int, value as int).1,
        0 <= r.0 <= value,
        underflow <= r.1 <= 0,
{
    let flow = value + underflow;
    if flow > 0 {
        (flow, 0)
    } else {
        (0, flow)
    }
}

fn calculate_block_width(style: &StyledNode, cb: Rect) -> (r: BlockWidths)
    requires
        style.specified_values.wf(),
        props_ok(style@.specified_values),
        0 <= cb.width <= GEOM_LIMIT,
    ensures
        ({
            let s = spec_block_width(style@.specified_values, cb@.width);
            &&& r.width == s.width
            &&& r.margin_left == s.margin_left
            &&& r.margin_right == s.margin_right
            &&& r.border_left == s.border_left
            &&& r.border_right == s.border_right
            &&& r.padding_left == s.padding_left
            &&& r.padding_right == s.padding_right
        }),
        0 <= r.width,
        0 <= r.margin_left <= MAX_STYLE_PX,
        0 <= r.margin_right,
        0 <= r.border_left <= MAX_STYLE_PX,
        0 <= r.border_right <= MAX_STYLE_PX,
        0 <= r.padding_left <= MAX_STYLE_PX,
        0 <= r.padding_right <= MAX_STYLE_PX,
        r.width + r.margin_left + r.margin_right + r.border_left + r.border_right
            + r.padding_left + r.padding_right <= cb@.width + 458752,
{
    let width_val = match style.value("width") {
        Option::Some(v) => v,
        Option::None => Value::Keyword(String::from_str("auto")),
    };
    proof {
        assert(value_ok(width_val@));
    }
    let w = width_val.to_px();
    let ml = px_lookup(style, "margin-left", "margin");
    let mr = px_lookup(style, "margin-right", "margin");
    let bl = px_lookup(style, "border-left-width", "border-width");
    let br = px_lookup(style, "border-right-width", "border-width");
    let pl = px_lookup(style, "padding-left", "padding");
    let pr = px_lookup(style, "padding-right", "padding");
    let total = mr + br + pr + pl + bl + ml + w;
    let underflow = cb.width - total;
    if underflow < 0 {
        let s1 = consume_underflow(underflow, mr);
        let s2 = consume_underflow(s1.1, br);
        let s3 = consume_underflow(s2.1, pr);
        let s4 = consume_underflow(s3.1, pl);
        let s5 = consume_underflow(s4.1, bl);
        let s6 = consume_underflow(s5.1, ml);
        let s7 = consume_underflow(s6.1, w);
        BlockWidths {
            width: s7.0,
            margin_left: s6.0,
            margin_right: s1.0,
            border_left: s5.0,
            border_right: s2.0,
            padding_left: s4.0,
            padding_right: s3.0,
        }
    } else {
        let is_auto = match &width_val {
            Value::Keyword(s) => crate::strutil::str_eq(s.as_str(), "auto"),
            _ => false,
        };
        if is_auto {
            BlockWidths {
                width: underflow,
                margin_left: ml,
                margin_right: mr,
                border_left: bl,
                border_right: br,
                padding_left: pl,
                padding_right: pr,
            }
        } else {
            BlockWidths {
                width: w,
                margin_left: ml,
                margin_right: mr + underflow,
                border_left: bl,
                border_right: br,
                padding_left: pl,
                padding_right: pr,
            }
        }
    }
}

// ---------------------------------------------------------------------------
// The layout recursion, in specification form
// ---------------------------------------------------------------------------

pub open spec fn mb_w(b: LayoutBoxM) -> int {
    spec_margin_box(b.dimensions).width
}

pub open spec fn mb_h(b: LayoutBoxM) -> int {
    spec_margin_box(b.dimensions).height
}

/// Sum of the children's margin-box heights, the accumulated content height.
pub open spec fn sum_mb_h(ks: Seq<LayoutBoxM>) -> int
    decreases ks,
{
    if ks.len() == 0 {
        0
    } else {
        sum_mb_h(ks.drop_last()) + mb_h(ks.last())
    }
}

/// The last child's margin-box width, 0 with no children.
pub open spec fn last_mb_w(ks: Seq<LayoutBoxM>) -> int {
    if ks.len() == 0 {
        0
    } else {
        mb_w(ks.last())
    }
}

/// An explicit `height` length overrides the accumulated height.
pub open spec fn spec_height_override(m: Map<Seq<char>, ValueM>, acc: int) -> int {
    if m.contains_key("height"@) && (m["height"@] matches ValueM::Length(_, Unit::Px)) {
        m["height"@]->Length_0
    } else {
        acc
    }
}

/// Top and bottom edges of a box, from the per-side then shorthand lookups.
pub ghost struct TopBottomM {
    pub margin_top: int,
    pub margin_bottom: int,
    pub border_top: int,
    pub border_bottom: int,
    pub padding_top: int,
    pub padding_bottom: int,
}

pub open spec fn spec_top_bottom(m: Map<Seq<char>, ValueM>) -> TopBottomM {
    TopBottomM {
        margin_top: spec_px_of(m, "margin-top"@, "margin"@),
        margin_bottom: spec_px_of(m, "margin-bottom"@, "margin"@),
        border_top: spec_px_of(m, "border-top-width"@, "border-width"@),
        border_bottom: spec_px_of(m, "border-bottom-width"@, "border-width"@),
        padding_top: spec_px_of(m, "padding-top"@, "padding"@),
        padding_bottom: spec_px_of(m, "padding-bottom"@, "padding"@),
    }
}

/// Geometry of a block box against a containing rectangle: solve widths, place
/// it after the accumulated height of its prior siblings, lay out the children
/// with this box as their containing block, then accumulate or override the
/// height.
pub open spec fn spec_layout(b: LayoutBoxM, cb: RectM) -> LayoutBoxM
    decreases b,
{
    match b.box_type {
        BoxTypeM::BlockNode(st) => {
            let m = st.specified_values;
            let bw = spec_block_width(m, cb.width);
            let tb = spec_top_bottom(m);
            let x = cb.x + bw.margin_left + bw.border_left + bw.padding_left;
            let y = cb.height + cb.y + tb.margin_top + tb.border_top + tb.padding_top;
            let kids = spec_lay_block_children(
                b.children,
                RectM { x: x, y: y, width: bw.width, height: 0 },
            );
            let h = spec_height_override(m, sum_mb_h(kids));
            LayoutBoxM {
                dimensions: DimsM {
                    content: RectM { x: x, y: y, width: bw.width, height: h },
                    padding: EdgesM {
                        left: bw.padding_left,
                        right: bw.padding_right,
                        top: tb.padding_top,
                        bottom: tb.padding_bottom,
                    },
                    border: EdgesM {
                        left: bw.border_left,
                        right: bw.border_right,
                        top: tb.border_top,
                        bottom: tb.border_bottom,
                    },
                    margin: EdgesM {
                        left: bw.margin_left,
                        right: bw.margin_right,
                        top: tb.margin_top,
                        bottom: tb.margin_bottom,
                    },
                },
                box_type: b.box_type,
                children: kids,
            }
        },
        BoxTypeM::InlineNode(st) => {
            let m = st.specified_values;
            let ml = spec_px_of(m, "margin-left"@, "margin"@);
            let mr = spec_px_of(m, "margin-right"@, "margin"@);
            let tb = spec_top_bottom(m);
            let x = cb.x + ml;
            let y = cb.height + cb.y + tb.margin_top + tb.border_top + tb.padding_top;
            let kids = spec_lay_inline_children(b.children, x, y, 0, 0);
            let wh = match st.node_data {
                NodeTypeM::Text(s) => (s.len() * CHAR_WIDTH_PX, LINE_HEIGHT_PX as int),
                _ => (last_mb_w(kids), sum_mb_h(kids)),
            };
            LayoutBoxM {
                dimensions: DimsM {
                    content: RectM { x: x, y: y, width: wh.0, height: wh.1 },
                    padding: EdgesM {
                        left: 0,
                        right: 0,
                        top: tb.padding_top,
                        bottom: tb.padding_bottom,
                    },
                    border: EdgesM {
                        left: 0,
                        right: 0,
                        top: tb.border_top,
                        bottom: tb.border_bottom,
                    },
                    margin: EdgesM {
                        left: ml,
                        right: mr,
                        top: tb.margin_top,
                        bottom: tb.margin_bottom,
                    },
                },
                box_type: b.box_type,
                children: kids,
            }
        },
        BoxTypeM::AnonymousBlock => {
            let kids = spec_lay_anon_children(b.children, cb);
            LayoutBoxM {
                dimensions: DimsM {
                    content: RectM {
                        x: 0,
                        y: 0,
                        width: last_mb_w(kids),
                        height: sum_mb_h(kids),
                    },
                    padding: edges_zero(),
                    border: edges_zero(),
                    margin: edges_zero(),
                },
                box_type: b.box_type,
                children: kids,
            }
        },
    }
}

/// Children of a block: each laid against the block's content rectangle, whose
/// height field carries the accumulated height of the earlier siblings.
pub open spec fn spec_lay_block_children(cs: Seq<LayoutBoxM>, cb: RectM) -> Seq<LayoutBoxM>
    decreases cs,
{
    if cs.len() == 0 {
        Seq::empty()
    } else {
        let c = spec_layout(cs[0], cb);
        seq![c] + spec_lay_block_children(
            cs.drop_first(),
            RectM { x: cb.x, y: cb.y, width: cb.width, height: cb.height + mb_h(c) },
        )
    }
}

/// Children of an inline box: as for a block, except that the containing
/// width is the previous child's margin-box width.
pub open spec fn spec_lay_inline_children(
    cs: Seq<LayoutBoxM>,
    x: int,
    y: int,
    w: int,
    h: int,
) -> Seq<LayoutBoxM>
    decreases cs,
{
    if cs.len() == 0 {
        Seq::empty()
    } else {
        let c = spec_layout(cs[0], RectM { x: x, y: y, width: w, height: h });
        seq![c] + spec_lay_inline_children(cs.drop_first(), x, y, mb_w(c), h + mb_h(c))
    }
}

/// Children of an anonymous block: each laid against the anonymous box's own
/// containing rectangle, unchanged.
pub open spec fn spec_lay_anon_children(cs: Seq<LayoutBoxM>, cb: RectM) -> Seq<LayoutBoxM>
    decreases cs,
{
    if cs.len() == 0 {
        Seq::empty()
    } else {
        seq![spec_layout(cs[0], cb)] + spec_lay_anon_children(cs.drop_first(), cb)
    }
}

// ---------------------------------------------------------------------------
// Tree construction
// ---------------------------------------------------------------------------

pub open spec fn styled_sizes(cs: Seq<StyledNodeM>) -> int
    decreases cs,
{
    if cs.len() == 0 {
        0
    } else {
        styled_sizes(cs.drop_last()) + styled_size(cs.last())
    }
}

/// Number of nodes in a styled subtree.
pub open spec fn styled_size(st: StyledNodeM) -> int
    decreases st,
{
    1 + styled_sizes(st.children)
}

pub broadcast proof fn lemma_styled_size_pos(st: StyledNodeM)
    ensures
        #[trigger] styled_size(st) >= 1,
    decreases st,
{
    lemma_styled_sizes_nonneg(st.children);
}

pub broadcast proof fn lemma_styled_sizes_nonneg(cs: Seq<StyledNodeM>)
    ensures
        #[trigger] styled_sizes(cs) >= 0,
    decreases cs,
{
    if cs.len() > 0 {
        lemma_styled_sizes_nonneg(cs.drop_last());
        lemma_styled_size_pos(cs.last());
    }
}

/// Bounds on the style inputs of a whole styled tree.
pub open spec fn sns_ok(cs: Seq<StyledNodeM>) -> bool
    decreases cs,
{
    cs.len() == 0 || (sns_ok(cs.drop_last()) && sn_ok(cs.last()))
}

pub open spec fn sn_ok(st: StyledNodeM) -> bool
    decreases st,
{
    styled_leaf_ok(st) && sns_ok(st.children)
}

/// The styled node stripped of its children, as stored in a layout box.
pub open spec fn st_leaf(st: StyledNodeM) -> StyledNodeM {
    StyledNodeM {
        node_data: st.node_data,
        specified_values: st.specified_values,
        children: Seq::empty(),
    }
}

/// Attach one built child box under a parent: blocks attach directly; under a
/// block parent an inline box goes into a trailing anonymous block, reused
/// when one is already last; hidden children are omitted.
pub open spec fn attach_box(
    acc: Seq<LayoutBoxM>,
    d: Display,
    bx: LayoutBoxM,
    parent_block: bool,
) -> Seq<LayoutBoxM> {
    if d == Display::DisplayNone {
        acc
    } else if d == Display::Block {
        acc.push(bx)
    } else if !parent_block {
        acc.push(bx)
    } else if acc.len() > 0 && acc.last().box_type is AnonymousBlock {
        acc.update(
            acc.len() - 1,
            LayoutBoxM {
                dimensions: acc.last().dimensions,
                box_type: BoxTypeM::AnonymousBlock,
                children: acc.last().children.push(bx),
            },
        )
    } else {
        acc.push(
            LayoutBoxM {
                dimensions: dims_zero(),
                box_type: BoxTypeM::AnonymousBlock,
                children: seq![bx],
            },
        )
    }
}

pub open spec fn spec_build_children(cs: Seq<StyledNodeM>, parent_block: bool) -> Seq<LayoutBoxM>
    decreases cs,
{
    if cs.len() == 0 {
        Seq::empty()
    } else {
        attach_box(
            spec_build_children(cs.drop_last(), parent_block),
            display_of(cs.last().specified_values),
            spec_build_box(cs.last()),
            parent_block,
        )
    }
}

/// The geometry tree of a styled node, before any dimensions are solved.
pub open spec fn spec_build_box(st: StyledNodeM) -> LayoutBoxM
    decreases st,
{
    let d = display_of(st.specified_values);
    LayoutBoxM {
        dimensions: dims_zero(),
        box_type: if d == Display::Block {
            BoxTypeM::BlockNode(st_leaf(st))
        } else {
            BoxTypeM::InlineNode(st_leaf(st))
        },
        children: spec_build_children(st.children, d == Display::Block),
    }
}

/// Build the geometry tree for a styled node, grouping runs of inline
/// children of a block under anonymous blocks.
pub fn make_layout_tree(node: StyledNode) -> (r: LayoutBox)
    requires
        sn_wf(node),
        display_of(styled_node_view(node).specified_values) != Display::DisplayNone,
    ensures
        r@ == spec_build_box(node@),
        box_wf(r),
    decreases node,
{
    let d = node.display();
    let parent_block = match d {
        Display::Block => true,
        _ => false,
    };
    let StyledNode { node_data, specified_values, children } = node;
    let ghost oc = node.children@;
    let ghost csv = styled_nodes_view(oc);
    proof {
        lemma_styled_nodes_view_len(oc);
    }
    let leaf = StyledNode { node_data, specified_values, children: Vec::new() };
    let box_type = if parent_block {
        BoxType::BlockNode(leaf)
    } else {
        BoxType::InlineNode(leaf)
    };
    let mut rem = children;
    let mut kids: Vec<LayoutBox> = Vec::new();
    let ghost mut k: int = 0;
    proof {
        assert(rem@ =~= oc.skip(0));
        assert(csv.take(0) =~= Seq::<StyledNodeM>::empty());
    }
    while rem.len() > 0
        invariant
            0 <= k <= oc.len(),
            oc == node.children@,
            csv == styled_nodes_view(oc),
            csv.len() == oc.len(),
            sns_wf(oc),
            rem@ == oc.skip(k),
            boxes_view(kids@) == spec_build_children(csv.take(k), parent_block),
            boxes_wf(kids@),
        decreases rem.len(),
    {
        proof {
            assert(oc.skip(k)[0] == oc[k]);
            assert(oc.skip(k).drop_first() =~= oc.skip(k + 1));
            lemma_sns_wf_index(oc, k);
            lemma_styled_nodes_view_index(oc, k);
            assert(csv.take(k + 1).drop_last() =~= csv.take(k));
            assert(csv.take(k + 1).last() == csv[k]);
        }
        let c = rem.remove(0);
        proof {
            assert(decreases_to!(node => node.children));
            assert(decreases_to!(node.children@ => node.children@[k]));
            assert(c == node.children@[k]);
        }
        let cd = c.display();
        match cd {
            Display::DisplayNone => {},
            Display::Block => {
                let cb2 = make_layout_tree(c);
                let ghost old_kids = kids@;
                kids.push(cb2);
                proof {
                    assert(kids@.drop_last() =~= old_kids);
                    assert(boxes_view(kids@) == boxes_view(old_kids).push(box_view(cb2)));
                }
            },
            Display::Inline => {
                let cb2 = make_layout_tree(c);
                if parent_block {
                    let reuse = if kids.len() > 0 {
                        matches!(kids[kids.len() - 1].box_type, BoxType::AnonymousBlock)
                    } else {
                        false
                    };
                    let ghost acc = boxes_view(kids@);
                    proof {
                        if kids.len() > 0 {
                            lemma_boxes_view_len(kids@);
                            lemma_boxes_view_index(kids@, kids@.len() - 1);
                            assert(acc.last() == box_view(kids@.last()));
                        }
                    }
                    if reuse {
                        let ghost old_kids = kids@;
                        let mut lastb = match kids.pop() {
                            Option::Some(b) => b,
                            Option::None => {
                                proof {
                                    assert(false);
                                }
                                unreached()
                            },
                        };
                        let ghost old_anon_children = lastb.children@;
                        lastb.children.push(cb2);
                        proof {
                            assert(lastb.children@.drop_last() =~= old_anon_children);
                        }
                        let ghost newlast = lastb;
                        kids.push(lastb);
                        proof {
                            assert(kids@.drop_last() =~= old_kids.drop_last());
                            assert(kids@.last() == newlast);
                            assert(boxes_view(kids@) == boxes_view(old_kids.drop_last()).push(
                                box_view(newlast)));
                            assert(boxes_view(newlast.children@) == boxes_view(
                                old_anon_children).push(box_view(cb2)));
                            assert(boxes_view(old_kids) == boxes_view(old_kids.drop_last()).push(
                                box_view(old_kids.last())));
                            assert(box_view(newlast) == (LayoutBoxM {
                                dimensions: acc.last().dimensions,
                                box_type: BoxTypeM::AnonymousBlock,
                                children: acc.last().children.push(box_view(cb2)),
                            }));
                            assert(boxes_view(kids@) =~= acc.update(acc.len() - 1, LayoutBoxM {
                                dimensions: acc.last().dimensions,
                                box_type: BoxTypeM::AnonymousBlock,
                                children: acc.last().children.push(box_view(cb2)),
                            }));
                            assert(boxes_wf(old_kids));
                            assert(box_wf(old_kids.last()));
                            assert(boxes_wf(newlast.children@));
                            assert(box_wf(newlast));
                            assert(boxes_wf(kids@));
                        }
                    } else {
                        let mut av: Vec<LayoutBox> = Vec::new();
                        av.push(cb2);
                        let ghost anon_children = av@;
                        let anon = LayoutBox {
                            dimensions: Dimensions::zero(),
                            box_type: BoxType::AnonymousBlock,
                            children: av,
                        };
                        let ghost old_kids = kids@;
                        kids.push(anon);
                        proof {
                            reveal_with_fuel(boxes_view, 3);
                            reveal_with_fuel(boxes_wf, 3);
                            assert(anon_children.drop_last() =~= Seq::<LayoutBox>::empty());
                            assert(anon_children.last() == cb2);
                            assert(boxes_view(anon_children) =~= seq![box_view(cb2)]);
                            assert(boxes_wf(anon_children));
                            assert(kids@.drop_last() =~= old_kids);
                            assert(boxes_view(kids@) == boxes_view(old_kids).push(
                                box_view(kids@.last())));
                        }
                    }
                } else {
                    let ghost old_kids = kids@;
                    kids.push(cb2);
                    proof {
                        assert(kids@.drop_last() =~= old_kids);
                        assert(boxes_view(kids@) == boxes_view(old_kids).push(box_view(cb2)));
                    }
                }
            },
        }
        proof {
            k = k + 1;
        }
    }
    proof {
        assert(oc.skip(k).len() == 0);
        assert(k == oc.len());
        assert(csv.take(k) =~= csv);
    }
    let r = LayoutBox { dimensions: Dimensions::zero(), box_type, children: kids };
    proof {
        assert(r@.children == spec_build_children(node@.children, parent_block));
        assert(leaf.children@ =~= Seq::<StyledNode>::empty());
        assert(styled_node_view(leaf).children =~= Seq::<StyledNodeM>::empty());
        assert(styled_node_view(leaf) == st_leaf(node@));
    }
    r
}

// ---------------------------------------------------------------------------
// Bounds carried by solved trees
// ---------------------------------------------------------------------------

pub open spec fn boxes_in_range(cs: Seq<LayoutBoxM>) -> bool
    decreases cs,
{
    cs.len() == 0 || (boxes_in_range(cs.drop_last()) && box_in_range(cs.last()))
}

/// Every dimension field in the solved subtree lies in `[0, FIELD_LIMIT]`.
pub open spec fn box_in_range(b: LayoutBoxM) -> bool
    decreases b,
{
    dims_in_range(b.dimensions) && boxes_in_range(b.children)
}

pub broadcast proof fn lemma_boxes_in_range_index(cs: Seq<LayoutBoxM>, i: int)
    requires
        boxes_in_range(cs),
        0 <= i < cs.len(),
    ensures
        #[trigger] box_in_range(cs[i]),
    decreases cs,
{
    if i < cs.len() - 1 {
        lemma_boxes_in_range_index(cs.drop_last(), i);
    }
}

proof fn lemma_attach_styles_ok(acc: Seq<LayoutBoxM>, d: Display, bx: LayoutBoxM, pb: bool)
    requires
        boxes_styles_ok(acc),
        box_styles_ok(bx),
    ensures
        boxes_styles_ok(attach_box(acc, d, bx, pb)),
{
    reveal_with_fuel(boxes_styles_ok, 3);
    let r = attach_box(acc, d, bx, pb);
    if d != Display::DisplayNone {
        if d != Display::Block && pb && acc.len() > 0 && acc.last().box_type is AnonymousBlock {
            let u = LayoutBoxM {
                dimensions: acc.last().dimensions,
                box_type: BoxTypeM::AnonymousBlock,
                children: acc.last().children.push(bx),
            };
            assert(boxes_styles_ok(acc.drop_last()));
            assert(r.drop_last() =~= acc.drop_last());
            assert(r.last() == u);
            assert(box_styles_ok(acc.last()));
            assert(u.children.drop_last() =~= acc.last().children);
            assert(u.children.last() == bx);
            assert(box_styles_ok(u));
            assert(r.len() > 0);
            assert(boxes_styles_ok(r));
        } else if d != Display::Block && pb {
            let u = LayoutBoxM {
                dimensions: dims_zero(),
                box_type: BoxTypeM::AnonymousBlock,
                children: seq![bx],
            };
            assert(r.drop_last() =~= acc);
            assert(r.last() == u);
            assert(u.children.drop_last() =~= Seq::<LayoutBoxM>::empty());
            assert(u.children.last() == bx);
            assert(boxes_styles_ok(u.children));
            assert(boxes_styles_ok(r));
        } else {
            assert(r.drop_last() =~= acc);
            assert(r.last() == bx);
            assert(boxes_styles_ok(r));
        }
    }
}

proof fn lemma_build_children_styles_ok(cs: Seq<StyledNodeM>, pb: bool)
    requires
        sns_ok(cs),
    ensures
        boxes_styles_ok(spec_build_children(cs, pb)),
    decreases cs, 0int,
{
    if cs.len() > 0 {
        lemma_build_children_styles_ok(cs.drop_last(), pb);
        lemma_build_box_styles_ok(cs.last());
        lemma_attach_styles_ok(
            spec_build_children(cs.drop_last(), pb),
            display_of(cs.last().specified_values),
            spec_build_box(cs.last()),
            pb,
        );
    }
}

/// A geometry tree built from a bounded styled tree carries bounded styles.
pub proof fn lemma_build_box_styles_ok(st: StyledNodeM)
    requires
        sn_ok(st),
    ensures
        box_styles_ok(spec_build_box(st)),
    decreases st, 1int,
{
    lemma_build_children_styles_ok(st.children, display_of(st.specified_values) == Display::Block);
}

proof fn lemma_attach_size(acc: Seq<LayoutBoxM>, d: Display, bx: LayoutBoxM, pb: bool)
    ensures
        boxes_sizes(attach_box(acc, d, bx, pb)) <= boxes_sizes(acc) + box_size(bx) + 1,
        boxes_sizes(attach_box(acc, d, bx, pb)) >= boxes_sizes(acc),
{
    broadcast use lemma_box_size_pos, lemma_boxes_sizes_nonneg;

    reveal_with_fuel(boxes_sizes, 3);
    let r = attach_box(acc, d, bx, pb);
    if d != Display::DisplayNone {
        if d != Display::Block && pb && acc.len() > 0 && acc.last().box_type is AnonymousBlock {
            let u = LayoutBoxM {
                dimensions: acc.last().dimensions,
                box_type: BoxTypeM::AnonymousBlock,
                children: acc.last().children.push(bx),
            };
            assert(r.drop_last() =~= acc.drop_last());
            assert(r.last() == u);
            assert(u.children.drop_last() =~= acc.last().children);
            assert(box_size(u) == box_size(acc.last()) + box_size(bx));
        } else if d != Display::Block && pb {
            let u = LayoutBoxM {
                dimensions: dims_zero(),
                box_type: BoxTypeM::AnonymousBlock,
                children: seq![bx],
            };
            assert(r.drop_last() =~= acc);
            assert(r.last() == u);
            assert(u.children.drop_last() =~= Seq::<LayoutBoxM>::empty());
            assert(u.children.last() == bx);
            lemma_boxes_sizes_singleton(bx);
            assert(u.children =~= seq![bx]);
            assert(box_size(u) == 1 + box_size(bx));
        } else {
            assert(r.drop_last() =~= acc);
            assert(r.last() == bx);
        }
    }
}

proof fn lemma_build_children_size(cs: Seq<StyledNodeM>, pb: bool)
    ensures
        boxes_sizes(spec_build_children(cs, pb)) <= 2 * styled_sizes(cs),
        boxes_sizes(spec_build_children(cs, pb)) >= 0,
    decreases cs, 0int,
{
    broadcast use lemma_boxes_sizes_nonneg, lemma_styled_sizes_nonneg, lemma_styled_size_pos;

    if cs.len() > 0 {
        lemma_build_children_size(cs.drop_last(), pb);
        lemma_build_box_size(cs.last());
        lemma_attach_size(
            spec_build_children(cs.drop_last(), pb),
            display_of(cs.last().specified_values),
            spec_build_box(cs.last()),
            pb,
        );
    }
}

/// At most one anonymous wrapper joins per styled node, so the geometry tree
/// has fewer than twice the styled tree's nodes.
pub proof fn lemma_build_box_size(st: StyledNodeM)
    ensures
        box_size(spec_build_box(st)) <= 2 * styled_size(st) - 1,
        box_size(spec_build_box(st)) >= 1,
    decreases st, 1int,
{
    broadcast use lemma_box_size_pos, lemma_boxes_sizes_nonneg;

    lemma_build_children_size(st.children, display_of(st.specified_values) == Display::Block);
}

// ---------------------------------------------------------------------------
// The geometry solve
// ---------------------------------------------------------------------------

impl LayoutBox {
    /// Solve this box's geometry against a containing rectangle: top-down
    /// width and position, bottom-up height.
    fn layout(self, cb: Rect) -> (r: LayoutBox)
        requires
            box_wf(self),
            box_styles_ok(self@),
            0 <= cb.x,
            0 <= cb.y,
            0 <= cb.width,
            0 <= cb.height,
            cb@.x + cb@.y + cb@.width + cb@.height + 2621440 * box_size(self@)
                <= GEOM_LIMIT,
        ensures
            r@ == spec_layout(self@, cb@),
            box_wf(r),
            box_in_range(r@),
            0 <= mb_w(r@) <= cb@.width + 655360 * box_size(self@),
            0 <= mb_h(r@) <= 458752 * box_size(self@),
        decreases self,
    {
        proof {
            broadcast use lemma_box_size_pos, lemma_boxes_sizes_nonneg;

        }
        let ghost selfv = self@;
        let LayoutBox { dimensions: _, box_type, children } = self;
        let ghost oc = self.children@;
        let ghost ocv = boxes_view(oc);
        proof {
            lemma_boxes_view_len(oc);
            assert(selfv.children == ocv);
            assert(box_size(selfv) == 1 + boxes_sizes(ocv));
        }
        match box_type {
            BoxType::BlockNode(st) => {
                proof {
                    assert(selfv.box_type == BoxTypeM::BlockNode(styled_node_view(st)));
                }
                let bw = calculate_block_width(&st, cb);
                let mt = px_lookup(&st, "margin-top", "margin");
                let mbv = px_lookup(&st, "margin-bottom", "margin");
                let bt = px_lookup(&st, "border-top-width", "border-width");
                let bb = px_lookup(&st, "border-bottom-width", "border-width");
                let pt = px_lookup(&st, "padding-top", "padding");
                let pb = px_lookup(&st, "padding-bottom", "padding");
                let x = cb.x + bw.margin_left + bw.border_left + bw.padding_left;
                let y = cb.height + cb.y + mt + bt + pt;
                let ghost cb0 = RectM { x: x as int, y: y as int, width: bw.width as int, height: 0 };
                let mut rem = children;
                let mut kids: Vec<LayoutBox> = Vec::new();
                let mut h: i64 = 0;
                let ghost mut k: int = 0;
                proof {
                    assert(rem@ =~= oc.skip(0));
                    assert(ocv.take(0) =~= Seq::<LayoutBoxM>::empty());
                    assert(kids@ =~= Seq::<LayoutBox>::empty());
                    assert(boxes_view(kids@) =~= Seq::<LayoutBoxM>::empty());
                    assert(ocv.skip(0) =~= ocv);
                    assert(boxes_view(kids@) + spec_lay_block_children(ocv.skip(0), cb0)
                        =~= spec_lay_block_children(ocv, cb0));
                }
                while rem.len() > 0
                    invariant
                        0 <= k <= oc.len(),
                        oc == self.children@,
                        ocv == boxes_view(oc),
                        ocv.len() == oc.len(),
                        boxes_wf(oc),
                        boxes_styles_ok(ocv),
                        rem@ == oc.skip(k),
                        kids@.len() == k,
                        boxes_wf(kids@),
                        boxes_in_range(boxes_view(kids@)),
                        0 <= h,
                        h as int == sum_mb_h(boxes_view(kids@)),
                        h as int <= 458752 * boxes_sizes(ocv.take(k)),
                        cb0 == (RectM { x: x as int, y: y as int, width: bw.width as int, height: 0 }),
                        0 <= cb0.x,
                        0 <= cb0.y,
                        0 <= cb0.width,
                        cb0.x + cb0.y + cb0.width + 2621440 * boxes_sizes(ocv)
                            <= GEOM_LIMIT,
                        spec_lay_block_children(ocv, cb0) == boxes_view(kids@)
                            + spec_lay_block_children(
                            ocv.skip(k),
                            RectM { x: cb0.x, y: cb0.y, width: cb0.width, height: h as int },
                        ),
                    decreases rem.len(),
                {
                    proof {
                        broadcast use lemma_box_size_pos, lemma_boxes_sizes_nonneg;

                        assert(oc.skip(k)[0] == oc[k]);
                        assert(oc.skip(k).drop_first() =~= oc.skip(k + 1));
                        lemma_boxes_wf_index(oc, k);
                        lemma_boxes_view_index(oc, k);
                        lemma_boxes_styles_ok_index(ocv, k);
                        assert(ocv =~= ocv.take(k) + ocv.skip(k));
                        lemma_boxes_sizes_concat(ocv.take(k), ocv.skip(k));
                        lemma_boxes_sizes_skip_succ(ocv, k);
                        assert(ocv.take(k + 1).drop_last() =~= ocv.take(k));
                        assert(ocv.take(k + 1).last() == ocv[k]);
                        assert(ocv.skip(k)[0] == ocv[k]);
                        assert(ocv.skip(k).drop_first() =~= ocv.skip(k + 1));
                        assert(boxes_sizes(ocv.take(k)) >= 0);
                        assert(boxes_sizes(ocv.skip(k + 1)) >= 0);
                        assert(box_size(ocv[k]) <= boxes_sizes(ocv.skip(k)));
                        assert(boxes_sizes(ocv) == boxes_sizes(ocv.take(k)) + boxes_sizes(
                            ocv.skip(k)));
                    }
                    let c = rem.remove(0);
                    proof {
                        assert(decreases_to!(self => self.children));
                        assert(decreases_to!(self.children@ => self.children@[k]));
                        assert(c == oc[k]);
                        assert(c@ == ocv[k]);
                        assert(box_wf(c));
                        assert(box_styles_ok(c@));
                        assert(cb0.x + cb0.y + cb0.width + (h as int)
                            + 2621440 * box_size(c@) <= GEOM_LIMIT);
                    }
                    let ghost cur = RectM { x: cb0.x, y: cb0.y, width: cb0.width, height: h as int };
                    let c2 = c.layout(Rect { x: x, y: y, width: bw.width, height: h });
                    let mbox = c2.dimensions.margin_box();
                    let ghost old_kids_seq = kids@;
                    let ghost old_kids_v = boxes_view(kids@);
                    h = h + mbox.height;
                    kids.push(c2);
                    proof {
                        assert(kids@.drop_last() =~= old_kids_seq);
                        assert(kids@.last() == c2);
                        assert(boxes_view(kids@) == old_kids_v.push(box_view(c2)));
                        assert(boxes_view(kids@).drop_last() =~= old_kids_v);
                        assert(sum_mb_h(boxes_view(kids@)) == sum_mb_h(old_kids_v) + mb_h(c2@));
                        assert(spec_lay_block_children(ocv.skip(k), cur) == seq![c2@]
                            + spec_lay_block_children(
                            ocv.skip(k + 1),
                            RectM { x: cb0.x, y: cb0.y, width: cb0.width, height: h as int },
                        ));
                        assert(old_kids_v + (seq![c2@] + spec_lay_block_children(
                            ocv.skip(k + 1),
                            RectM { x: cb0.x, y: cb0.y, width: cb0.width, height: h as int },
                        )) =~= boxes_view(kids@) + spec_lay_block_children(
                            ocv.skip(k + 1),
                            RectM { x: cb0.x, y: cb0.y, width: cb0.width, height: h as int },
                        ));
                        k = k + 1;
                    }
                }
                proof {
                    assert(oc.skip(k).len() == 0);
                    assert(k == oc.len());
                    assert(ocv.take(k) =~= ocv);
                    assert(spec_lay_block_children(ocv.skip(k), RectM {
                        x: cb0.x,
                        y: cb0.y,
                        width: cb0.width,
                        height: h as int,
                    }) =~= Seq::<LayoutBoxM>::empty());
                    assert(boxes_view(kids@) + Seq::<LayoutBoxM>::empty() =~= boxes_view(kids@));
                    assert(boxes_view(kids@) == spec_lay_block_children(ocv, cb0));
                }
                let final_h = match st.value("height") {
                    Option::Some(Value::Length(l, Unit::Px)) => l,
                    _ => h,
                };
                proof {
                    if styled_node_view(st).specified_values.contains_key("height"@) {
                        assert(value_ok(styled_node_view(st).specified_values["height"@]));
                    }
                    assert(final_h as int == spec_height_override(
                        styled_node_view(st).specified_values,
                        h as int,
                    ));
                }
                let dims = Dimensions {
                    content: Rect { x: x, y: y, width: bw.width, height: final_h },
                    padding: EdgeSizes {
                        left: bw.padding_left,
                        right: bw.padding_right,
                        top: pt,
                        bottom: pb,
                    },
                    border: EdgeSizes {
                        left: bw.border_left,
                        right: bw.border_right,
                        top: bt,
                        bottom: bb,
                    },
                    margin: EdgeSizes {
                        left: bw.margin_left,
                        right: bw.margin_right,
                        top: mt,
                        bottom: mbv,
                    },
                };
                let r = LayoutBox { dimensions: dims, box_type: BoxType::BlockNode(st), children: kids };
                proof {
                    assert(r@.children == boxes_view(kids@));
                    assert(r@ == spec_layout(selfv, cb@));
                }
                r
            },
            BoxType::InlineNode(st) => {
                proof {
                    assert(selfv.box_type == BoxTypeM::InlineNode(styled_node_view(st)));
                }
                let ml = px_lookup(&st, "margin-left", "margin");
                let mr = px_lookup(&st, "margin-right", "margin");
                let mt = px_lookup(&st, "margin-top", "margin");
                let mbv = px_lookup(&st, "margin-bottom", "margin");
                let bt = px_lookup(&st, "border-top-width", "border-width");
                let bb = px_lookup(&st, "border-bottom-width", "border-width");
                let pt = px_lookup(&st, "padding-top", "padding");
                let pb = px_lookup(&st, "padding-bottom", "padding");
                let x = cb.x + ml;
                let y = cb.height + cb.y + mt + bt + pt;
                let mut rem = children;
                let mut kids: Vec<LayoutBox> = Vec::new();
                let mut w: i64 = 0;
                let mut h: i64 = 0;
                let ghost mut k: int = 0;
                proof {
                    assert(rem@ =~= oc.skip(0));
                    assert(ocv.take(0) =~= Seq::<LayoutBoxM>::empty());
                    assert(kids@ =~= Seq::<LayoutBox>::empty());
                    assert(boxes_view(kids@) =~= Seq::<LayoutBoxM>::empty());
                    assert(ocv.skip(0) =~= ocv);
                    assert(boxes_view(kids@) + spec_lay_inline_children(
                        ocv.skip(0), x as int, y as int, 0, 0)
                        =~= spec_lay_inline_children(ocv, x as int, y as int, 0, 0));
                }
                while rem.len() > 0
                    invariant
                        0 <= k <= oc.len(),
                        oc == self.children@,
                        ocv == boxes_view(oc),
                        ocv.len() == oc.len(),
                        boxes_wf(oc),
                        boxes_styles_ok(ocv),
                        rem@ == oc.skip(k),
                        kids@.len() == k,
                        boxes_wf(kids@),
                        boxes_in_range(boxes_view(kids@)),
                        0 <= h,
                        0 <= w,
                        h as int == sum_mb_h(boxes_view(kids@)),
                        w as int == last_mb_w(boxes_view(kids@)),
                        h as int <= 458752 * boxes_sizes(ocv.take(k)),
                        w as int <= 655360 * boxes_sizes(ocv.take(k)),
                        0 <= x as int,
                        0 <= y as int,
                        (x as int) + (y as int) + 2621440 * boxes_sizes(ocv)
                            <= GEOM_LIMIT,
                        spec_lay_inline_children(ocv, x as int, y as int, 0, 0)
                            == boxes_view(kids@) + spec_lay_inline_children(
                            ocv.skip(k), x as int, y as int, w as int, h as int),
                    decreases rem.len(),
                {
                    proof {
                        broadcast use lemma_box_size_pos, lemma_boxes_sizes_nonneg;

                        assert(oc.skip(k)[0] == oc[k]);
                        assert(oc.skip(k).drop_first() =~= oc.skip(k + 1));
                        lemma_boxes_wf_index(oc, k);
                        lemma_boxes_view_index(oc, k);
                        lemma_boxes_styles_ok_index(ocv, k);
                        assert(ocv =~= ocv.take(k) + ocv.skip(k));
                        lemma_boxes_sizes_concat(ocv.take(k), ocv.skip(k));
                        lemma_boxes_sizes_skip_succ(ocv, k);
                        assert(ocv.take(k + 1).drop_last() =~= ocv.take(k));
                        assert(ocv.take(k + 1).last() == ocv[k]);
                        assert(ocv.skip(k)[0] == ocv[k]);
                        assert(ocv.skip(k).drop_first() =~= ocv.skip(k + 1));
                        assert(boxes_sizes(ocv.take(k)) >= 0);
                        assert(boxes_sizes(ocv.skip(k + 1)) >= 0);
                        assert(box_size(ocv[k]) <= boxes_sizes(ocv.skip(k)));
                        assert(boxes_sizes(ocv) == boxes_sizes(ocv.take(k)) + boxes_sizes(
                            ocv.skip(k)));
                    }
                    let c = rem.remove(0);
                    proof {
                        assert(decreases_to!(self => self.children));
                        assert(decreases_to!(self.children@ => self.children@[k]));
                        assert(c == oc[k]);
                        assert(c@ == ocv[k]);
                        assert(box_wf(c));
                        assert(box_styles_ok(c@));
                        assert((x as int) + (y as int) + (w as int) + (h as int)
                            + 2621440 * box_size(c@) <= GEOM_LIMIT);
                    }
                    let ghost curw = w as int;
                    let ghost curh = h as int;
                    let c2 = c.layout(Rect { x: x, y: y, width: w, height: h });
                    let mbox = c2.dimensions.margin_box();
                    let ghost old_kids_seq = kids@;
                    let ghost old_kids_v = boxes_view(kids@);
                    w = mbox.width;
                    h = h + mbox.height;
                    kids.push(c2);
                    proof {
                        assert(kids@.drop_last() =~= old_kids_seq);
                        assert(kids@.last() == c2);
                        assert(boxes_view(kids@) == old_kids_v.push(box_view(c2)));
                        assert(boxes_view(kids@).drop_last() =~= old_kids_v);
                        assert(sum_mb_h(boxes_view(kids@)) == sum_mb_h(old_kids_v) + mb_h(c2@));
                        assert(spec_lay_inline_children(ocv.skip(k), x as int, y as int, curw, curh)
                            == seq![c2@] + spec_lay_inline_children(
                            ocv.skip(k + 1), x as int, y as int, w as int, h as int));
                        assert(old_kids_v + (seq![c2@] + spec_lay_inline_children(
                            ocv.skip(k + 1), x as int, y as int, w as int, h as int))
                            =~= boxes_view(kids@) + spec_lay_inline_children(
                            ocv.skip(k + 1), x as int, y as int, w as int, h as int));
                        k = k + 1;
                    }
                }
                proof {
                    assert(oc.skip(k).len() == 0);
                    assert(k == oc.len());
                    assert(ocv.take(k) =~= ocv);
                    assert(spec_lay_inline_children(ocv.skip(k), x as int, y as int, w as int,
                        h as int) =~= Seq::<LayoutBoxM>::empty());
                    assert(boxes_view(kids@) + Seq::<LayoutBoxM>::empty() =~= boxes_view(kids@));
                    assert(boxes_view(kids@) == spec_lay_inline_children(ocv, x as int, y as int,
                        0, 0));
                }
                match &st.node_data {
                    NodeType::Text(body) => {
                        let n = body.as_str().unicode_len();
                        proof {
                            assert(styled_node_view(st).node_data == NodeTypeM::Text(body@));
                            assert(body@.len() <= MAX_STYLE_PX);
                        }
                        w = (n as i64) * CHAR_WIDTH_PX;
                        h = LINE_HEIGHT_PX;
                    },
                    NodeType::Element(_) => {},
                }
                let dims = Dimensions {
                    content: Rect { x: x, y: y, width: w, height: h },
                    padding: EdgeSizes { left: 0, right: 0, top: pt, bottom: pb },
                    border: EdgeSizes { left: 0, right: 0, top: bt, bottom: bb },
                    margin: EdgeSizes { left: ml, right: mr, top: mt, bottom: mbv },
                };
                let r = LayoutBox {
                    dimensions: dims,
                    box_type: BoxType::InlineNode(st),
                    children: kids,
                };
                proof {
                    assert(r@.children == boxes_view(kids@));
                    assert(r@ == spec_layout(selfv, cb@));
                }
                r
            },
            BoxType::AnonymousBlock => {
                let mut rem = children;
                let mut kids: Vec<LayoutBox> = Vec::new();
                let mut w: i64 = 0;
                let mut h: i64 = 0;
                let ghost mut k: int = 0;
                proof {
                    assert(rem@ =~= oc.skip(0));
                    assert(ocv.take(0) =~= Seq::<LayoutBoxM>::empty());
                    assert(kids@ =~= Seq::<LayoutBox>::empty());
                    assert(boxes_view(kids@) =~= Seq::<LayoutBoxM>::empty());
                    assert(ocv.skip(0) =~= ocv);
                    assert(boxes_view(kids@) + spec_lay_anon_children(ocv.skip(0), cb@)
                        =~= spec_lay_anon_children(ocv, cb@));
                }
                while rem.len() > 0
                    invariant
                        0 <= k <= oc.len(),
                        oc == self.children@,
                        ocv == boxes_view(oc),
                        ocv.len() == oc.len(),
                        boxes_wf(oc),
                        boxes_styles_ok(ocv),
                        rem@ == oc.skip(k),
                        kids@.len() == k,
                        boxes_wf(kids@),
                        boxes_in_range(boxes_view(kids@)),
                        0 <= h,
                        0 <= w,
                        h as int == sum_mb_h(boxes_view(kids@)),
                        w as int == last_mb_w(boxes_view(kids@)),
                        h as int <= 458752 * boxes_sizes(ocv.take(k)),
                        w as int <= cb@.width + 655360 * boxes_sizes(
                            ocv.take(k)),
                        0 <= cb.x,
                        0 <= cb.y,
                        0 <= cb.width,
                        0 <= cb.height,
                        cb@.x + cb@.y + cb@.width + cb@.height
                            + 2621440 * boxes_sizes(ocv) <= GEOM_LIMIT,
                        spec_lay_anon_children(ocv, cb@) == boxes_view(kids@)
                            + spec_lay_anon_children(ocv.skip(k), cb@),
                    decreases rem.len(),
                {
                    proof {
                        broadcast use lemma_box_size_pos, lemma_boxes_sizes_nonneg;

                        assert(oc.skip(k)[0] == oc[k]);
                        assert(oc.skip(k).drop_first() =~= oc.skip(k + 1));
                        lemma_boxes_wf_index(oc, k);
                        lemma_boxes_view_index(oc, k);
                        lemma_boxes_styles_ok_index(ocv, k);
                        assert(ocv =~= ocv.take(k) + ocv.skip(k));
                        lemma_boxes_sizes_concat(ocv.take(k), ocv.skip(k));
                        lemma_boxes_sizes_skip_succ(ocv, k);
                        assert(ocv.take(k + 1).drop_last() =~= ocv.take(k));
                        assert(ocv.take(k + 1).last() == ocv[k]);
                        assert(ocv.skip(k)[0] == ocv[k]);
                        assert(ocv.skip(k).drop_first() =~= ocv.skip(k + 1));
                        assert(boxes_sizes(ocv.take(k)) >= 0);
                        assert(boxes_sizes(ocv.skip(k + 1)) >= 0);
                        assert(box_size(ocv[k]) <= boxes_sizes(ocv.skip(k)));
                        assert(boxes_sizes(ocv) == boxes_sizes(ocv.take(k)) + boxes_sizes(
                            ocv.skip(k)));
                    }
                    let c = rem.remove(0);
                    proof {
                        assert(decreases_to!(self => self.children));
                        assert(decreases_to!(self.children@ => self.children@[k]));
                        assert(c == oc[k]);
                        assert(c@ == ocv[k]);
                        assert(box_wf(c));
                        assert(box_styles_ok(c@));
                        assert(cb@.x + cb@.y + cb@.width + cb@.height
                            + 2621440 * box_size(c@) <= GEOM_LIMIT);
                    }
                    let c2 = c.layout(cb);
                    let mbox = c2.dimensions.margin_box();
                    let ghost old_kids_seq = kids@;
                    let ghost old_kids_v = boxes_view(kids@);
                    w = mbox.width;
                    h = h + mbox.height;
                    kids.push(c2);
                    proof {
                        assert(kids@.drop_last() =~= old_kids_seq);
                        assert(kids@.last() == c2);
                        assert(boxes_view(kids@) == old_kids_v.push(box_view(c2)));
                        assert(boxes_view(kids@).drop_last() =~= old_kids_v);
                        assert(sum_mb_h(boxes_view(kids@)) == sum_mb_h(old_kids_v) + mb_h(c2@));
                        assert(spec_lay_anon_children(ocv.skip(k), cb@) == seq![c2@]
                            + spec_lay_anon_children(ocv.skip(k + 1), cb@));
                        assert(old_kids_v + (seq![c2@] + spec_lay_anon_children(ocv.skip(k + 1),
                            cb@)) =~= boxes_view(kids@) + spec_lay_anon_children(ocv.skip(k + 1),
                            cb@));
                        k = k + 1;
                    }
                }
                proof {
                    assert(oc.skip(k).len() == 0);
                    assert(k == oc.len());
                    assert(ocv.take(k) =~= ocv);
                    assert(spec_lay_anon_children(ocv.skip(k), cb@) =~= Seq::<LayoutBoxM>::empty());
                    assert(boxes_view(kids@) + Seq::<LayoutBoxM>::empty() =~= boxes_view(kids@));
                    assert(boxes_view(kids@) == spec_lay_anon_children(ocv, cb@));
                }
                let dims = Dimensions {
                    content: Rect { x: 0, y: 0, width: w, height: h },
                    padding: EdgeSizes { left: 0, right: 0, top: 0, bottom: 0 },
                    border: EdgeSizes { left: 0, right: 0, top: 0, bottom: 0 },
                    margin: EdgeSizes { left: 0, right: 0, top: 0, bottom: 0 },
                };
                let r = LayoutBox {
                    dimensions: dims,
                    box_type: BoxType::AnonymousBlock,
                    children: kids,
                };
                proof {
                    assert(r@.children == boxes_view(kids@));
                    assert(r@ == spec_layout(selfv, cb@));
                }
                r
            },
        }
    }
}

/// The solved geometry of a styled tree: the geometry tree of the styled
/// node, solved against the viewport with its accumulated height reset.
pub open spec fn spec_layout_tree(st: StyledNodeM, cbd: DimsM) -> LayoutBoxM {
    spec_layout(
        spec_build_box(st),
        RectM {
            x: cbd.content.x,
            y: cbd.content.y,
            width: cbd.content.width,
            height: 0,
        },
    )
}

/// Transform a styled tree into a solved layout tree against a viewport.
pub fn layout_tree(node: StyledNode, containing_block: Dimensions) -> (r: LayoutBox)
    requires
        sn_wf(node),
        sn_ok(node@),
        styled_size(node@) <= MAX_NODES,
        display_of(node@.specified_values) != Display::DisplayNone,
        0 <= containing_block.content.x <= MAX_STYLE_PX,
        0 <= containing_block.content.y <= MAX_STYLE_PX,
        0 <= containing_block.content.width <= MAX_STYLE_PX,
        0 <= containing_block.content.height <= MAX_STYLE_PX,
    ensures
        r@ == spec_layout_tree(node@, containing_block@),
        box_wf(r),
        box_in_range(r@),
{
    let mut cb = containing_block;
    cb.content.height = 0;
    let root_box = make_layout_tree(node);
    proof {
        lemma_build_box_styles_ok(node@);
        lemma_build_box_size(node@);
        assert(box_size(root_box@) <= 2 * styled_size(node@) - 1);
        assert(cb@.content.x + cb@.content.y + cb@.content.width + cb@.content.height
            + 2621440 * box_size(root_box@) <= GEOM_LIMIT);
    }
    root_box.layout(cb.content)
}

} // verus!
