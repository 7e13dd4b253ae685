//! Display-list building: walk the solved layout tree in paint order and
//! emit drawing commands, then rasterize them onto a pixel canvas.
use vstd::prelude::*;
use crate::css::Color;
use crate::dom::{NodeType, NodeTypeM};
use crate::layout::{BoxType, BoxTypeM, LayoutBox, LayoutBoxM, Rect, RectM, box_in_range,
    box_wf, boxes_in_range, boxes_view, lemma_boxes_in_range_index, lemma_boxes_view_index,
    lemma_boxes_view_len, lemma_boxes_wf_index, rect_bounded, spec_border_box};
use crate::style::{StyledNodeM, get_color_of};

verus! {

#[derive(Debug, PartialEq, Clone)]
pub enum DisplayCommand {
    SolidColor(Color, Rect),
    Text(String, Rect),
}

pub type DisplayList = Vec<DisplayCommand>;

pub ghost enum CommandM {
    SolidColor(Color, RectM),
    Text(Seq<char>, RectM),
}

impl View for DisplayCommand {
    type V = CommandM;

    open spec fn view(&self) -> CommandM {
        match self {
            DisplayCommand::SolidColor(c, r) => CommandM::SolidColor(*c, r@),
            DisplayCommand::Text(s, r) => CommandM::Text(s@, r@),
        }
    }
}

pub open spec fn cmds_view(s: Seq<DisplayCommand>) -> Seq<CommandM> {
    Seq::new(s.len(), |i: int| s[i]@)
}

// ---------------------------------------------------------------------------
// The display list, in specification form
// ---------------------------------------------------------------------------

/// Commands of one styled box, in paint order: its text, then its background
/// over the border box, then one thin rectangle per border edge.
pub open spec fn own_cmds_styled(st: StyledNodeM, d: crate::layout::DimsM) -> Seq<CommandM> {
    let bb = spec_border_box(d);
    let text = match st.node_data {
        NodeTypeM::Text(s) => seq![CommandM::Text(s, bb)],
        _ => Seq::empty(),
    };
    let bg = match get_color_of(st.specified_values, "background"@) {
        Option::Some(c) => seq![CommandM::SolidColor(c, bb)],
        Option::None => Seq::empty(),
    };
    let borders = match get_color_of(st.specified_values, "border-color"@) {
        Option::Some(c) => seq![
            CommandM::SolidColor(
                c,
                RectM { x: bb.x, y: bb.y, width: d.border.left, height: bb.height },
            ),
            CommandM::SolidColor(
                c,
                RectM {
                    x: bb.x + bb.width - d.border.right,
                    y: bb.y,
                    width: d.border.right,
                    height: bb.height,
                },
            ),
            CommandM::SolidColor(
                c,
                RectM { x: bb.x, y: bb.y, width: bb.width, height: d.border.top },
            ),
            CommandM::SolidColor(
                c,
                RectM {
                    x: bb.x,
                    y: bb.y + bb.height - d.border.bottom,
                    width: bb.width,
                    height: d.border.bottom,
                },
            ),
        ],
        Option::None => Seq::empty(),
    };
    text + bg + borders
}

pub open spec fn own_cmds(b: LayoutBoxM) -> Seq<CommandM> {
    match b.box_type {
        BoxTypeM::BlockNode(st) => own_cmds_styled(st, b.dimensions),
        BoxTypeM::InlineNode(st) => own_cmds_styled(st, b.dimensions),
        BoxTypeM::AnonymousBlock => Seq::empty(),
    }
}

/// The display list of a layout subtree: the box's own commands, then each
/// child's list in order. Later entries paint over earlier ones.
pub open spec fn spec_display_list(b: LayoutBoxM) -> Seq<CommandM>
    decreases b,
{
    own_cmds(b) + spec_display_children(b.children)
}

pub open spec fn spec_display_children(cs: Seq<LayoutBoxM>) -> Seq<CommandM>
    decreases cs,
{
    if cs.len() == 0 {
        Seq::empty()
    } else {
        spec_display_list(cs[0]) + spec_display_children(cs.drop_first())
    }
}

/// The text content of a box whose styled node is a text leaf.
pub open spec fn box_text(b: LayoutBoxM) -> Option<Seq<char>> {
    match b.box_type {
        BoxTypeM::BlockNode(st) => match st.node_data {
            NodeTypeM::Text(s) => Option::Some(s),
            _ => Option::None,
        },
        BoxTypeM::InlineNode(st) => match st.node_data {
            NodeTypeM::Text(s) => Option::Some(s),
            _ => Option::None,
        },
        BoxTypeM::AnonymousBlock => Option::None,
    }
}

pub open spec fn spec_get_color_box(b: LayoutBoxM, name: Seq<char>) -> Option<Color> {
    match b.box_type {
        BoxTypeM::BlockNode(st) => get_color_of(st.specified_values, name),
        BoxTypeM::InlineNode(st) => get_color_of(st.specified_values, name),
        BoxTypeM::AnonymousBlock => Option::None,
    }
}

fn get_color(layout_box: &LayoutBox, name: &str) -> (r: Option<Color>)
    requires
        box_wf(*layout_box),
    ensures
        r == spec_get_color_box(layout_box@, name@),
{
    match &layout_box.box_type {
        BoxType::BlockNode(style) => style.get_color(name),
        BoxType::InlineNode(style) => style.get_color(name),
        BoxType::AnonymousBlock => Option::None,
    }
}

fn render_text(list: &mut DisplayList, layout_box: &LayoutBox)
    requires
        box_in_range(layout_box@),
    ensures
        cmds_view(final(list)@) == cmds_view(old(list)@) + (match box_text(layout_box@) {
            Option::Some(s) => seq![CommandM::Text(s, spec_border_box(layout_box@.dimensions))],
            Option::None => Seq::<CommandM>::empty(),
        }),
{
    let ghost before = cmds_view(list@);
    match &layout_box.box_type {
        BoxType::BlockNode(style) | BoxType::InlineNode(style) => match &style.node_data {
            NodeType::Text(content) => {
                list.push(
                    DisplayCommand::Text(content.clone(), layout_box.dimensions.border_box()),
                );
                proof {
                    assert(cmds_view(list@) =~= before + seq![
                        CommandM::Text(content@, spec_border_box(layout_box@.dimensions)),
                    ]);
                }
            },
            NodeType::Element(_) => {
                proof {
                    assert(cmds_view(list@) + Seq::<CommandM>::empty() =~= before);
                }
            },
        },
        BoxType::AnonymousBlock => {
            proof {
                assert(cmds_view(list@) + Seq::<CommandM>::empty() =~= before);
            }
        },
    }
}

fn render_background(list: &mut DisplayList, layout_box: &LayoutBox)
    requires
        box_in_range(layout_box@),
        box_wf(*layout_box),
    ensures
        cmds_view(final(list)@) == cmds_view(old(list)@) + (match spec_get_color_box(
            layout_box@,
            "background"@,
        ) {
            Option::Some(c) => seq![
                CommandM::SolidColor(c, spec_border_box(layout_box@.dimensions)),
            ],
            Option::None => Seq::<CommandM>::empty(),
        }),
{
    let ghost before = cmds_view(list@);
    match get_color(layout_box, "background") {
        Option::Some(color) => {
            list.push(DisplayCommand::SolidColor(color, layout_box.dimensions.border_box()));
            proof {
                assert(cmds_view(list@) =~= before + seq![
                    CommandM::SolidColor(color, spec_border_box(layout_box@.dimensions)),
                ]);
            }
        },
        Option::None => {
            proof {
                assert(before + Seq::<CommandM>::empty() =~= cmds_view(list@));
            }
        },
    }
}

fn render_border(list: &mut DisplayList, layout_box: &LayoutBox)
    requires
        box_in_range(layout_box@),
        box_wf(*layout_box),
    ensures
        cmds_view(final(list)@) == cmds_view(old(list)@) + (match spec_get_color_box(
            layout_box@,
            "border-color"@,
        ) {
            Option::Some(c) => ({
                let bb = spec_border_box(layout_box@.dimensions);
                let d = layout_box@.dimensions;
                seq![
                    CommandM::SolidColor(
                        c,
                        RectM { x: bb.x, y: bb.y, width: d.border.left, height: bb.height },
                    ),
                    CommandM::SolidColor(
                        c,
                        RectM {
                            x: bb.x + bb.width - d.border.right,
                            y: bb.y,
                            width: d.border.right,
                            height: bb.height,
                        },
                    ),
                    CommandM::SolidColor(
                        c,
                        RectM { x: bb.x, y: bb.y, width: bb.width, height: d.border.top },
                    ),
                    CommandM::SolidColor(
                        c,
                        RectM {
                            x: bb.x,
                            y: bb.y + bb.height - d.border.bottom,
                            width: bb.width,
                            height: d.border.bottom,
                        },
                    ),
                ]
            }),
            Option::None => Seq::<CommandM>::empty(),
        }),
{
    let ghost before = cmds_view(list@);
    let color = match get_color(layout_box, "border-color") {
        Option::Some(color) => color,
        Option::None => {
            proof {
                assert(before + Seq::<CommandM>::empty() =~= cmds_view(list@));
            }
            return ;
        },
    };
    let d = layout_box.dimensions;
    let border_box = d.border_box();
    list.push(
        DisplayCommand::SolidColor(
            color,
            Rect {
                x: border_box.x,
                y: border_box.y,
                width: d.border.left,
                height: border_box.height,
            },
        ),
    );
    list.push(
        DisplayCommand::SolidColor(
            color,
            Rect {
                x: border_box.x + border_box.width - d.border.right,
                y: border_box.y,
                width: d.border.right,
                height: border_box.height,
            },
        ),
    );
    list.push(
        DisplayCommand::SolidColor(
            color,
            Rect {
                x: border_box.x,
                y: border_box.y,
                width: border_box.width,
                height: d.border.top,
            },
        ),
    );
    list.push(
        DisplayCommand::SolidColor(
            color,
            Rect {
                x: border_box.x,
                y: border_box.y + border_box.height - d.border.bottom,
                width: border_box.width,
                height: d.border.bottom,
            },
        ),
    );
    proof {
        assert(cmds_view(list@) =~= before + seq![
            list@[list@.len() - 4]@,
            list@[list@.len() - 3]@,
            list@[list@.len() - 2]@,
            list@[list@.len() - 1]@,
        ]);
    }
}

/// Append the display list of a layout subtree: the box's own commands in
/// paint order, then each child's commands.
pub fn render_layout_box_tree(list: &mut DisplayList, layout_box: &LayoutBox)
    requires
        box_in_range(layout_box@),
        box_wf(*layout_box),
    ensures
        cmds_view(final(list)@) == cmds_view(old(list)@) + spec_display_list(layout_box@),
    decreases *layout_box,
{
    let ghost before = cmds_view(list@);
    render_text(list, layout_box);
    render_background(list, layout_box);
    render_border(list, layout_box);
    proof {
        assert(cmds_view(list@) =~= before + own_cmds(layout_box@));
    }
    let ghost after_own = cmds_view(list@);
    let ghost kv = boxes_view(layout_box.children@);
    proof {
        lemma_boxes_view_len(layout_box.children@);
        assert(kv.skip(0) =~= kv);
        assert(after_own + spec_display_children(kv.skip(0)) =~= after_own
            + spec_display_children(kv));
    }
    let mut i: usize = 0;
    while i < layout_box.children.len()
        invariant
            i <= layout_box.children.len(),
            kv == boxes_view(layout_box.children@),
            kv.len() == layout_box.children.len(),
            box_in_range(layout_box@),
            box_wf(*layout_box),
            layout_box@.children == kv,
            cmds_view(list@) + spec_display_children(kv.skip(i as int)) == after_own
                + spec_display_children(kv),
        decreases layout_box.children.len() - i,
    {
        proof {
            lemma_boxes_view_index(layout_box.children@, i as int);
            lemma_boxes_wf_index(layout_box.children@, i as int);
            lemma_boxes_in_range_index(kv, i as int);
            assert(kv.skip(i as int)[0] == kv[i as int]);
            assert(kv.skip(i as int).drop_first() =~= kv.skip(i as int + 1));
        }
        let ghost cur = cmds_view(list@);
        render_layout_box_tree(list, &layout_box.children[i]);
        proof {
            assert(cur + (spec_display_list(kv[i as int]) + spec_display_children(
                kv.skip(i as int + 1))) =~= cmds_view(list@) + spec_display_children(
                kv.skip(i as int + 1)));
        }
        i = i + 1;
    }
    proof {
        assert(kv.skip(i as int) =~= Seq::<LayoutBoxM>::empty());
        assert(cmds_view(list@) + Seq::<CommandM>::empty() =~= cmds_view(list@));
        assert(cmds_view(list@) =~= before + (own_cmds(layout_box@) + spec_display_children(kv)));
    }
}

// ---------------------------------------------------------------------------
// Rasterization
// ---------------------------------------------------------------------------

/// Bound on the coordinates of any rectangle in a display list built from an
/// in-range layout tree.
pub const RECT_LIMIT: i64 = 17592186044416;

pub open spec fn cmd_bounded(c: CommandM) -> bool {
    match c {
        CommandM::SolidColor(_, r) => rect_bounded(r, RECT_LIMIT as int),
        CommandM::Text(_, r) => rect_bounded(r, RECT_LIMIT as int),
    }
}

pub open spec fn cmds_bounded(s: Seq<CommandM>) -> bool {
    forall|i: int| 0 <= i < s.len() ==> cmd_bounded(#[trigger] s[i])
}

proof fn lemma_cmds_bounded_concat(a: Seq<CommandM>, b: Seq<CommandM>)
    requires
        cmds_bounded(a),
        cmds_bounded(b),
    ensures
        cmds_bounded(a + b),
{
    assert forall|i: int| 0 <= i < (a + b).len() implies cmd_bounded(#[trigger] (a + b)[i]) by {
        if i < a.len() {
            assert((a + b)[i] == a[i]);
        } else {
            assert((a + b)[i] == b[i - a.len()]);
        }
    }
}

proof fn lemma_display_children_bounded(cs: Seq<LayoutBoxM>)
    requires
        boxes_in_range(cs),
    ensures
        cmds_bounded(spec_display_children(cs)),
    decreases cs, 0int,
{
    if cs.len() > 0 {
        lemma_boxes_in_range_index(cs, 0);
        lemma_display_list_bounded(cs[0]);
        assert(boxes_in_range(cs.drop_first())) by {
            assert forall|i: int| 0 <= i < cs.drop_first().len() implies box_in_range(
                #[trigger] cs.drop_first()[i]) by {
                lemma_boxes_in_range_index(cs, i + 1);
            }
            lemma_boxes_in_range_all(cs.drop_first());
        }
        lemma_display_children_bounded(cs.drop_first());
        lemma_cmds_bounded_concat(spec_display_list(cs[0]), spec_display_children(cs.drop_first()));
    }
}

proof fn lemma_boxes_in_range_all(cs: Seq<LayoutBoxM>)
    requires
        forall|i: int| 0 <= i < cs.len() ==> box_in_range(#[trigger] cs[i]),
    ensures
        boxes_in_range(cs),
    decreases cs,
{
    if cs.len() > 0 {
        assert forall|i: int| 0 <= i < cs.drop_last().len() implies box_in_range(
            #[trigger] cs.drop_last()[i]) by {
            assert(cs.drop_last()[i] == cs[i]);
        }
        lemma_boxes_in_range_all(cs.drop_last());
        assert(cs.last() == cs[cs.len() - 1]);
    }
}

/// Every rectangle in the display list of an in-range tree stays within
/// `RECT_LIMIT`.
pub proof fn lemma_display_list_bounded(b: LayoutBoxM)
    requires
        box_in_range(b),
    ensures
        cmds_bounded(spec_display_list(b)),
    decreases b, 1int,
{
    lemma_display_children_bounded(b.children);
    assert(cmds_bounded(own_cmds(b))) by {
        match b.box_type {
            BoxTypeM::BlockNode(st) => {
                lemma_own_cmds_styled_bounded(st, b.dimensions);
            },
            BoxTypeM::InlineNode(st) => {
                lemma_own_cmds_styled_bounded(st, b.dimensions);
            },
            BoxTypeM::AnonymousBlock => {},
        }
    }
    lemma_cmds_bounded_concat(own_cmds(b), spec_display_children(b.children));
}

proof fn lemma_own_cmds_styled_bounded(st: StyledNodeM, d: crate::layout::DimsM)
    requires
        crate::layout::dims_in_range(d),
    ensures
        cmds_bounded(own_cmds_styled(st, d)),
{
}

/// `v` clamped into `[0, hi]`.
pub open spec fn clampi(v: int, hi: int) -> int {
    if v < 0 {
        0
    } else if v > hi {
        hi
    } else {
        v
    }
}

/// Whether pixel index `idx` of a row-major surface of width `w` lies in the
/// column range `[x0, x1)` and row range `[y0, y1)`.
pub open spec fn in_fill_region(idx: int, w: int, x0: int, x1: int, y0: int, y1: int) -> bool {
    w > 0 && x0 <= idx % w < x1 && y0 <= idx / w < y1
}

/// One command applied to a row-major pixel store: a solid color fills its
/// clipped rectangle, text leaves the pixels alone.
pub open spec fn spec_paint_cmd(pixels: Seq<Color>, w: int, h: int, cmd: CommandM) -> Seq<Color> {
    match cmd {
        CommandM::SolidColor(c, rect) => Seq::new(
            pixels.len(),
            |idx: int|
                if in_fill_region(
                    idx,
                    w,
                    clampi(rect.x, w),
                    clampi(rect.x + rect.width, w),
                    clampi(rect.y, h),
                    clampi(rect.y + rect.height, h),
                ) {
                    c
                } else {
                    pixels[idx]
                },
        ),
        CommandM::Text(_, _) => pixels,
    }
}

/// A pixel surface filled white at construction.
#[derive(Debug)]
pub struct Canvas {
    pub pixels: Vec<Color>,
    pub width: usize,
    pub height: usize,
}

/// The pixel store holds one entry per canvas cell.
pub open spec fn canvas_wf(c: Canvas) -> bool {
    &&& c.pixels.len() == c.width * c.height
    &&& c.width <= 65535
    &&& c.height <= 65535
}

impl Canvas {
    /// A white canvas of the given size.
    pub fn new(width: usize, height: usize) -> (r: Canvas)
        requires
            width <= 65535,
            height <= 65535,
        ensures
            r.width == width,
            r.height == height,
            canvas_wf(r),
            forall|i: int| 0 <= i < r.pixels@.len() ==> r.pixels@[i] == (Color {
                r: 255,
                g: 255,
                b: 255,
                a: 255,
            }),
    {
        let white = Color { r: 255, g: 255, b: 255, a: 255 };
        proof {
            assert(width * height < 0x100000000) by (nonlinear_arith)
                requires
                    width <= 65535,
                    height <= 65535,
            ;
        }
        let n = width * height;
        Canvas { pixels: vec![white; n], width: width, height: height }
    }

    /// Fill the command's rectangle, clipped to the canvas, with its color.
    /// Text commands leave the pixels alone.
    pub fn paint_pixels_by_display_command(&mut self, display_command: &DisplayCommand)
        requires
            canvas_wf(*old(self)),
            cmd_bounded(display_command@),
        ensures
            final(self).width == old(self).width,
            final(self).height == old(self).height,
            canvas_wf(*final(self)),
            final(self).pixels@ == spec_paint_cmd(
                old(self).pixels@,
                old(self).width as int,
                old(self).height as int,
                display_command@,
            ),
    {
        match display_command {
            DisplayCommand::SolidColor(color, rect) => {
                let ghost w = old(self).width as int;
                let ghost h = old(self).height as int;
                let ghost opix = old(self).pixels@;
                let wi = self.width as i64;
                let hi = self.height as i64;
                let x_left = clamp_px(rect.x, wi) as usize;
                let y_top = clamp_px(rect.y, hi) as usize;
                let x_right = clamp_px(rect.x + rect.width, wi) as usize;
                let y_bottom = clamp_px(rect.y + rect.height, hi) as usize;
                let ghost x0 = x_left as int;
                let ghost x1 = x_right as int;
                let ghost y0 = y_top as int;
                let ghost y1 = y_bottom as int;
                let col = *color;
                proof {
                    assert(w == 0 ==> w * h == 0) by (nonlinear_arith);
                    assert(w > 0 || opix.len() == 0);
                }
                let mut y = y_top;
                while y < y_bottom
                    invariant
                        x0 == x_left as int,
                        x1 == x_right as int,
                        y0 == y_top as int,
                        y1 == y_bottom as int,
                        y0 <= y as int,
                        (y as int) <= y1 || y as int == y0,
                        y_bottom <= self.height,
                        x_right <= self.width,
                        self.width == old(self).width,
                        self.height == old(self).height,
                        w == old(self).width as int,
                        h == old(self).height as int,
                        w > 0 || opix.len() == 0,
                        canvas_wf(*self),
                        opix == old(self).pixels@,
                        self.pixels@.len() == opix.len(),
                        col == *color,
                        forall|idx: int| 0 <= idx < opix.len()
                            ==> #[trigger] self.pixels@[idx] == (if in_fill_region(
                                idx, w, x0, x1, y0, y as int) {
                                col
                            } else {
                                opix[idx]
                            }),
                    decreases y_bottom - y,
                {
                    let mut x = x_left;
                    while x < x_right
                        invariant
                            x0 == x_left as int,
                            x1 == x_right as int,
                            y0 == y_top as int,
                            y1 == y_bottom as int,
                            y0 <= (y as int) < y1,
                            x0 <= x as int,
                            (x as int) <= x1 || x as int == x0,
                            y < y_bottom <= self.height,
                            x_right <= self.width,
                            self.width == old(self).width,
                            self.height == old(self).height,
                            w == old(self).width as int,
                            h == old(self).height as int,
                            w > 0 || opix.len() == 0,
                            canvas_wf(*self),
                            opix == old(self).pixels@,
                            self.pixels@.len() == opix.len(),
                            col == *color,
                            forall|idx: int| 0 <= idx < opix.len()
                                ==> #[trigger] self.pixels@[idx] == (if in_fill_region(
                                    idx, w, x0, x1, y0, y as int) || (idx / w == y as int && x0
                                    <= idx % w < x as int) {
                                    col
                                } else {
                                    opix[idx]
                                }),
                        decreases x_right - x,
                    {
                        proof {
                            assert((y as int) * (self.width as int) + (x as int) < (
                            self.width as int) * (self.height as int)) by (nonlinear_arith)
                                requires
                                    y < self.height,
                                    x < self.width,
                                    self.width <= 65535,
                                    self.height <= 65535,
                            ;
                            assert((y as int) * (self.width as int) + (x as int) < 0x100000000)
                                by (nonlinear_arith)
                                requires
                                    y < self.height,
                                    x < self.width,
                                    self.width <= 65535,
                                    self.height <= 65535,
                            ;
                        }
                        let idx = y * self.width + x;
                        let ghost prev = self.pixels@;
                        self.pixels[idx] = col;
                        proof {
                            assert(self.width as int == w);
                            assert(w > 0);
                            assert(0 <= (x as int) < w);
                            assert(idx as int == (y as int) * w + (x as int));
                            vstd::arithmetic::div_mod::lemma_fundamental_div_mod_converse(
                                idx as int,
                                w,
                                y as int,
                                x as int,
                            );
                            assert(idx as int / w == y as int);
                            assert(idx as int % w == x as int);
                            assert forall|k: int| 0 <= k < opix.len() implies
                                #[trigger] self.pixels@[k] == (if in_fill_region(
                                    k, w, x0, x1, y0, y as int) || (k / w == y as int && x0
                                    <= k % w < x as int + 1) {
                                    col
                                } else {
                                    opix[k]
                                }) by {
                                if k != idx as int {
                                    assert(self.pixels@[k] == prev[k]);
                                    if k / w == y as int && k % w == x as int {
                                        vstd::arithmetic::div_mod::lemma_fundamental_div_mod(
                                            k,
                                            w,
                                        );
                                        assert(k == w * (k / w) + k % w);
                                        assert(w * (y as int) == (y as int) * w)
                                            by (nonlinear_arith);
                                        assert(k == idx as int);
                                    }
                                }
                            }
                        }
                        x = x + 1;
                    }
                    proof {
                        assert(x as int >= x1 || x as int == x0);
                        assert forall|k: int| 0 <= k < opix.len() implies
                            #[trigger] self.pixels@[k] == (if in_fill_region(
                                k, w, x0, x1, y0, y as int + 1) {
                                col
                            } else {
                                opix[k]
                            }) by {
                            if w > 0 && x0 <= k % w < x1 && y0 <= k / w < y as int + 1 {
                                if k / w == y as int {
                                    assert(k % w < x as int);
                                    assert(self.pixels@[k] == col);
                                } else {
                                    assert(in_fill_region(k, w, x0, x1, y0, y as int));
                                }
                            } else {
                                assert(w > 0);
                                if k / w == y as int && x0 <= k % w < x as int {
                                    assert(x as int <= x1 || x as int == x0);
                                    assert(x0 <= k % w < x1);
                                    assert(y0 <= k / w < y as int + 1);
                                    assert(false);
                                }
                                if in_fill_region(k, w, x0, x1, y0, y as int) {
                                    assert(y0 <= k / w < y as int + 1);
                                    assert(false);
                                }
                            }
                        }
                    }
                    y = y + 1;
                }
                proof {
                    assert(y as int >= y1 || y as int == y0);
                    assert forall|k: int| 0 <= k < opix.len() implies
                        #[trigger] self.pixels@[k] == (if in_fill_region(k, w, x0, x1, y0, y1) {
                            col
                        } else {
                            opix[k]
                        }) by {
                        if in_fill_region(k, w, x0, x1, y0, y1) {
                            assert(k / w < y1);
                            assert(in_fill_region(k, w, x0, x1, y0, y as int));
                        } else {
                            if in_fill_region(k, w, x0, x1, y0, y as int) {
                                assert(y0 <= k / w < y as int);
                                assert(y as int > y1);
                                assert(y as int == y0);
                                assert(false);
                            }
                        }
                    }
                    assert(self.pixels@ =~= spec_paint_cmd(opix, w, h, display_command@));
                }
            },
            DisplayCommand::Text(_, _) => {},
        }
    }
}

fn clamp_px(v: i64, hi: i64) -> (r: i64)
    requires
        0 <= hi,
        -(4 * RECT_LIMIT) <= v <= 4 * RECT_LIMIT,
    ensures
        0 <= r <= hi,
        r == clampi(v as int, hi as int),
{
    if v < 0 {
        0
    } else if v > hi {
        hi
    } else {
        v
    }
}

/// A surface of `n` white pixels.
pub open spec fn white_pixels(n: nat) -> Seq<Color> {
    Seq::new(n, |i: int| Color { r: 255, g: 255, b: 255, a: 255 })
}

/// Display-list commands applied in order to a pixel surface, later commands
/// painting over earlier ones.
pub open spec fn spec_rasterize(cmds: Seq<CommandM>, pixels: Seq<Color>, w: int, h: int) -> Seq<
    Color,
>
    decreases cmds,
{
    if cmds.len() == 0 {
        pixels
    } else {
        spec_paint_cmd(spec_rasterize(cmds.drop_last(), pixels, w, h), w, h, cmds.last())
    }
}

/// Rasterize a solved layout tree onto a white canvas sized to the viewport:
/// build the display list, then fill each command's clipped rectangle in
/// order, later commands over earlier ones.
pub fn paint(layout_root: &LayoutBox, boundary: Rect) -> (r: Canvas)
    requires
        box_in_range(layout_root@),
        box_wf(*layout_root),
        0 <= boundary.width <= 65535,
        0 <= boundary.height <= 65535,
    ensures
        r.width as int == boundary@.width,
        r.height as int == boundary@.height,
        canvas_wf(r),
        r.pixels@ == spec_rasterize(
            spec_display_list(layout_root@),
            white_pixels((boundary@.width * boundary@.height) as nat),
            boundary@.width,
            boundary@.height,
        ),
{
    let mut display_command_list: Vec<DisplayCommand> = Vec::new();
    render_layout_box_tree(&mut display_command_list, layout_root);
    let ghost cv = cmds_view(display_command_list@);
    proof {
        assert(cv =~= Seq::<CommandM>::empty() + spec_display_list(layout_root@));
        assert(cv =~= spec_display_list(layout_root@));
        lemma_display_list_bounded(layout_root@);
    }
    let mut canvas = Canvas::new(boundary.width as usize, boundary.height as usize);
    let ghost w = boundary@.width;
    let ghost h = boundary@.height;
    let ghost base = white_pixels((w * h) as nat);
    proof {
        assert(canvas.pixels@ =~= base);
        assert(cv.take(0) =~= Seq::<CommandM>::empty());
    }
    let mut i: usize = 0;
    while i < display_command_list.len()
        invariant
            i <= display_command_list.len(),
            cv == cmds_view(display_command_list@),
            cv.len() == display_command_list.len(),
            cmds_bounded(cv),
            w == boundary@.width,
            h == boundary@.height,
            base == white_pixels((w * h) as nat),
            canvas.width as int == w,
            canvas.height as int == h,
            canvas_wf(canvas),
            canvas.pixels@ == spec_rasterize(cv.take(i as int), base, w, h),
        decreases display_command_list.len() - i,
    {
        proof {
            assert(cv[i as int] == display_command_list@[i as int]@);
            assert(cv.take(i as int + 1).drop_last() =~= cv.take(i as int));
            assert(cv.take(i as int + 1).last() == cv[i as int]);
        }
        canvas.paint_pixels_by_display_command(&display_command_list[i]);
        i = i + 1;
    }
    proof {
        assert(cv.take(cv.len() as int) =~= cv);
    }
    canvas
}

} // verus!
