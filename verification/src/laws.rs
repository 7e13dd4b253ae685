//! Laws of the engine, stated and proved over the specification functions
//! that the executable contracts are pinned to.
use vstd::prelude::*;
use crate::css::{Color, DeclarationM, RuleM, SelectorM, StylesheetM, ValueM,
    selectors_sorted_desc, spec_lex_ge};
use crate::dom::NodeM;
use crate::dom::NodeTypeM;
use crate::layout::{BoxTypeM, DimsM, LayoutBoxM, RectM, spec_border_box, spec_build_box,
    spec_build_children, spec_lay_anon_children, spec_lay_block_children,
    spec_lay_inline_children, spec_layout, spec_layout_tree, sum_mb_h, mb_h, mb_w, attach_box,
    dims_zero};
use crate::painter::{CommandM, box_text, own_cmds, spec_display_children, spec_display_list,
    spec_get_color_box};
use crate::style::{Display, StyledNodeM, apply_decls, cascade_rules, display_of, find_match,
    spec_style, spec_style_children, specified_values_of};

verus! {

// ---------------------------------------------------------------------------
// Shape preservation
// ---------------------------------------------------------------------------

pub open spec fn shapes_match(sts: Seq<StyledNodeM>, ns: Seq<NodeM>) -> bool
    decreases ns,
{
    &&& sts.len() == ns.len()
    &&& (ns.len() == 0 || (shapes_match(sts.drop_last(), ns.drop_last()) && shape_match(
        sts.last(),
        ns.last(),
    )))
}

/// A styled node has exactly the document node's children, in order, each
/// matching in shape.
pub open spec fn shape_match(st: StyledNodeM, n: NodeM) -> bool
    decreases n,
{
    shapes_match(st.children, n.children)
}

proof fn lemma_style_children_shape(cs: Seq<NodeM>, rules: Seq<RuleM>)
    ensures
        shapes_match(spec_style_children(cs, rules), cs),
    decreases cs, 0int,
{
    if cs.len() > 0 {
        lemma_style_children_shape(cs.drop_last(), rules);
        lemma_style_preserves_shape(cs.last(), rules);
        assert(spec_style_children(cs, rules).drop_last() =~= spec_style_children(
            cs.drop_last(),
            rules,
        ));
        assert(spec_style_children(cs, rules).last() == spec_style(cs.last(), rules));
    }
}

/// Styling preserves the document tree's shape: node count and order.
pub proof fn lemma_style_preserves_shape(n: NodeM, rules: Seq<RuleM>)
    ensures
        shape_match(spec_style(n, rules), n),
    decreases n, 1int,
{
    lemma_style_children_shape(n.children, rules);
}

// ---------------------------------------------------------------------------
// The cascade
// ---------------------------------------------------------------------------

/// Whether some declaration in the list binds the property.
pub open spec fn seq_declares(ds: Seq<DeclarationM>, p: Seq<char>) -> bool {
    exists|d: int| 0 <= d < ds.len() && (#[trigger] ds[d]).name == p
}

/// Whether some declaration of the rule binds the property.
pub open spec fn declares(r: RuleM, p: Seq<char>) -> bool {
    seq_declares(r.declarations, p)
}

/// The value of the last declaration of `p` in the list, the one the cascade
/// keeps when the list is applied in order.
pub open spec fn last_decl_val(ds: Seq<DeclarationM>, p: Seq<char>) -> ValueM
    decreases ds,
{
    if ds.len() == 0 {
        ValueM::Keyword(Seq::empty())
    } else if ds.last().name == p {
        ds.last().value
    } else {
        last_decl_val(ds.drop_last(), p)
    }
}

proof fn lemma_apply_decls_no_p(
    m: Map<Seq<char>, ((int, int, int), ValueM)>,
    sp: (int, int, int),
    ds: Seq<DeclarationM>,
    p: Seq<char>,
)
    requires
        forall|d: int| 0 <= d < ds.len() ==> (#[trigger] ds[d]).name != p,
    ensures
        apply_decls(m, sp, ds).contains_key(p) == m.contains_key(p),
        m.contains_key(p) ==> apply_decls(m, sp, ds)[p] == m[p],
    decreases ds,
{
    if ds.len() > 0 {
        assert(ds.last() == ds[ds.len() - 1]);
        lemma_apply_decls_no_p(m, sp, ds.drop_last(), p);
    }
}

proof fn lemma_declares_drop_last(ds: Seq<DeclarationM>, p: Seq<char>)
    requires
        seq_declares(ds, p),
        ds.len() > 0,
        ds.last().name != p,
    ensures
        seq_declares(ds.drop_last(), p),
{
    let d = choose|d: int| 0 <= d < ds.len() && (#[trigger] ds[d]).name == p;
    assert(d < ds.len() - 1);
    assert(ds.drop_last()[d] == ds[d]);
}

/// Applying a declaration list that binds `p` to a mapping without `p`
/// installs the list's last binding of `p` at this rule's rank.
proof fn lemma_apply_decls_fresh_p(
    m: Map<Seq<char>, ((int, int, int), ValueM)>,
    sp: (int, int, int),
    ds: Seq<DeclarationM>,
    p: Seq<char>,
)
    requires
        !m.contains_key(p),
        seq_declares(ds, p),
    ensures
        apply_decls(m, sp, ds).contains_key(p),
        apply_decls(m, sp, ds)[p] == (sp, last_decl_val(ds, p)),
    decreases ds,
{
    assert(ds.len() > 0);
    let m2 = apply_decls(m, sp, ds.drop_last());
    if ds.last().name == p {
        if seq_declares(ds.drop_last(), p) {
            lemma_apply_decls_fresh_p(m, sp, ds.drop_last(), p);
        } else {
            assert forall|d: int| 0 <= d < ds.drop_last().len() implies (
            #[trigger] ds.drop_last()[d]).name != p by {
                if ds.drop_last()[d].name == p {
                    assert(seq_declares(ds.drop_last(), p));
                }
            }
            lemma_apply_decls_no_p(m, sp, ds.drop_last(), p);
        }
    } else {
        lemma_declares_drop_last(ds, p);
        lemma_apply_decls_fresh_p(m, sp, ds.drop_last(), p);
    }
}

/// Applying a declaration list that binds `p` to a mapping already holding a
/// binding of `p`: the new rank wins exactly when it ranks at least as high.
proof fn lemma_apply_decls_stored_p(
    m: Map<Seq<char>, ((int, int, int), ValueM)>,
    sp: (int, int, int),
    ds: Seq<DeclarationM>,
    p: Seq<char>,
    s0: (int, int, int),
    v0: ValueM,
)
    requires
        m.contains_key(p),
        m[p] == (s0, v0),
        seq_declares(ds, p),
    ensures
        apply_decls(m, sp, ds).contains_key(p),
        apply_decls(m, sp, ds)[p] == (if spec_lex_ge(sp, s0) {
            (sp, last_decl_val(ds, p))
        } else {
            (s0, v0)
        }),
    decreases ds,
{
    assert(ds.len() > 0);
    let m2 = apply_decls(m, sp, ds.drop_last());
    if ds.last().name == p {
        if seq_declares(ds.drop_last(), p) {
            lemma_apply_decls_stored_p(m, sp, ds.drop_last(), p, s0, v0);
        } else {
            assert forall|d: int| 0 <= d < ds.drop_last().len() implies (
            #[trigger] ds.drop_last()[d]).name != p by {
                if ds.drop_last()[d].name == p {
                    assert(seq_declares(ds.drop_last(), p));
                }
            }
            lemma_apply_decls_no_p(m, sp, ds.drop_last(), p);
        }
    } else {
        lemma_declares_drop_last(ds, p);
        lemma_apply_decls_stored_p(m, sp, ds.drop_last(), p, s0, v0);
    }
}

#[verifier::spinoff_prover]
proof fn lemma_cascade_state(
    e: crate::dom::ElementDataM,
    rules: Seq<RuleM>,
    i: int,
    j: int,
    si: (int, int, int),
    sj: (int, int, int),
    p: Seq<char>,
    n: int,
)
    requires
        0 <= i < j < rules.len(),
        find_match(e, rules[i].selectors) == Option::Some(si),
        find_match(e, rules[j].selectors) == Option::Some(sj),
        declares(rules[i], p),
        declares(rules[j], p),
        forall|k: int| 0 <= k < rules.len() && k != i && k != j
            ==> !(find_match(e, (#[trigger] rules[k]).selectors) is Some && declares(rules[k], p)),
        0 <= n <= rules.len(),
    ensures
        n <= i ==> !cascade_rules(e, rules.take(n)).contains_key(p),
        i < n <= j ==> cascade_rules(e, rules.take(n)).contains_key(p) && cascade_rules(
            e,
            rules.take(n),
        )[p] == (si, last_decl_val(rules[i].declarations, p)),
        j < n ==> cascade_rules(e, rules.take(n)).contains_key(p) && cascade_rules(
            e,
            rules.take(n),
        )[p] == (if spec_lex_ge(sj, si) {
            (sj, last_decl_val(rules[j].declarations, p))
        } else {
            (si, last_decl_val(rules[i].declarations, p))
        }),
    decreases n,
{
    if n == 0 {
        assert(rules.take(0) =~= Seq::<RuleM>::empty());
    } else {
        lemma_cascade_state(e, rules, i, j, si, sj, p, n - 1);
        assert(rules.take(n).drop_last() =~= rules.take(n - 1));
        assert(rules.take(n).last() == rules[n - 1]);
        let m = cascade_rules(e, rules.take(n - 1));
        let r = rules[n - 1];
        if n - 1 == i {
            assert(cascade_rules(e, rules.take(n)) == apply_decls(m, si, r.declarations));
            lemma_apply_decls_fresh_p(m, si, r.declarations, p);
        } else if n - 1 == j {
            assert(cascade_rules(e, rules.take(n)) == apply_decls(m, sj, r.declarations));
            lemma_apply_decls_stored_p(
                m,
                sj,
                r.declarations,
                p,
                si,
                last_decl_val(rules[i].declarations, p),
            );
        } else {
            match find_match(e, r.selectors) {
                Option::None => {
                    assert(cascade_rules(e, rules.take(n)) == m);
                },
                Option::Some(sp) => {
                    assert(!declares(r, p));
                    assert forall|d: int| 0 <= d < r.declarations.len() implies (
                    #[trigger] r.declarations[d]).name != p by {
                        if r.declarations[d].name == p {
                            assert(declares(r, p));
                        }
                    }
                    lemma_apply_decls_no_p(m, sp, r.declarations, p);
                },
            }
        }
    }
}

/// Among the rules that match an element and bind a property, when two do —
/// in any source order, with any other declarations beside — the one whose
/// matched selector ranks higher supplies the property's value (its last
/// declaration of it), and the later rule wins a tie.
pub proof fn lemma_cascade_winner(
    e: crate::dom::ElementDataM,
    rules: Seq<RuleM>,
    i: int,
    j: int,
    si: (int, int, int),
    sj: (int, int, int),
    p: Seq<char>,
)
    requires
        0 <= i < j < rules.len(),
        find_match(e, rules[i].selectors) == Option::Some(si),
        find_match(e, rules[j].selectors) == Option::Some(sj),
        declares(rules[i], p),
        declares(rules[j], p),
        forall|k: int| 0 <= k < rules.len() && k != i && k != j
            ==> !(find_match(e, (#[trigger] rules[k]).selectors) is Some && declares(rules[k], p)),
    ensures
        specified_values_of(e, rules).contains_key(p),
        specified_values_of(e, rules)[p] == (if spec_lex_ge(sj, si) {
            last_decl_val(rules[j].declarations, p)
        } else {
            last_decl_val(rules[i].declarations, p)
        }),
{
    lemma_cascade_state(e, rules, i, j, si, sj, p, rules.len() as int);
    assert(rules.take(rules.len() as int) =~= rules);
}

// ---------------------------------------------------------------------------
// Heights
// ---------------------------------------------------------------------------

/// A block's content height is its children's accumulated margin-box heights,
/// unless an explicit pixel height overrides it.
pub proof fn lemma_block_height(b: LayoutBoxM, cb: RectM, st: StyledNodeM)
    requires
        b.box_type == BoxTypeM::BlockNode(st),
    ensures
        st.specified_values.contains_key("height"@) && (st.specified_values["height"@] matches
            ValueM::Length(_, _))
            ==> spec_layout(b, cb).dimensions.content.height
                == st.specified_values["height"@]->Length_0,
        !(st.specified_values.contains_key("height"@) && (st.specified_values["height"@] matches
            ValueM::Length(_, _)))
            ==> spec_layout(b, cb).dimensions.content.height == sum_mb_h(spec_layout(b, cb).children),
{
}

// ---------------------------------------------------------------------------
// Anonymous grouping
// ---------------------------------------------------------------------------

pub open spec fn boxes_no_bare_inline(cs: Seq<LayoutBoxM>, parent_is_block: bool) -> bool
    decreases cs,
{
    cs.len() == 0 || (boxes_no_bare_inline(cs.drop_last(), parent_is_block)
        && box_no_bare_inline(cs.last()) && (parent_is_block ==> !(cs.last().box_type
        is InlineNode)))
}

/// No block box in the tree holds an inline box directly among its children.
pub open spec fn box_no_bare_inline(b: LayoutBoxM) -> bool
    decreases b,
{
    boxes_no_bare_inline(b.children, b.box_type is BlockNode)
}

proof fn lemma_attach_no_bare_inline(
    acc: Seq<LayoutBoxM>,
    d: Display,
    bx: LayoutBoxM,
    pb: bool,
)
    requires
        boxes_no_bare_inline(acc, pb),
        box_no_bare_inline(bx),
        d == Display::Block ==> bx.box_type is BlockNode,
    ensures
        boxes_no_bare_inline(attach_box(acc, d, bx, pb), pb),
{
    reveal_with_fuel(boxes_no_bare_inline, 3);
    let r = attach_box(acc, d, bx, pb);
    if d != Display::DisplayNone {
        if d != Display::Block && pb && acc.len() > 0 && acc.last().box_type is AnonymousBlock {
            let u = LayoutBoxM {
                dimensions: acc.last().dimensions,
                box_type: BoxTypeM::AnonymousBlock,
                children: acc.last().children.push(bx),
            };
            assert(r.drop_last() =~= acc.drop_last());
            assert(r.last() == u);
            assert(box_no_bare_inline(acc.last()));
            assert(u.children.drop_last() =~= acc.last().children);
            assert(u.children.last() == bx);
            assert(box_no_bare_inline(u));
        } else if d != Display::Block && pb {
            let u = LayoutBoxM {
                dimensions: dims_zero(),
                box_type: BoxTypeM::AnonymousBlock,
                children: seq![bx],
            };
            assert(r.drop_last() =~= acc);
            assert(r.last() == u);
            assert(u.children.drop_last() =~= Seq::<LayoutBoxM>::empty());
            assert(u.children.last() == bx);
            assert(!(u.box_type is BlockNode));
            assert(boxes_no_bare_inline(u.children, false));
            assert(box_no_bare_inline(u));
        } else {
            assert(r.drop_last() =~= acc);
            assert(r.last() == bx);
        }
    }
}

proof fn lemma_build_children_no_bare_inline(cs: Seq<StyledNodeM>, pb: bool)
    ensures
        boxes_no_bare_inline(spec_build_children(cs, pb), pb),
    decreases cs, 0int,
{
    if cs.len() > 0 {
        lemma_build_children_no_bare_inline(cs.drop_last(), pb);
        lemma_no_bare_inline(cs.last());
        lemma_attach_no_bare_inline(
            spec_build_children(cs.drop_last(), pb),
            display_of(cs.last().specified_values),
            spec_build_box(cs.last()),
            pb,
        );
    }
}

/// Tree construction never leaves an inline box directly under a block box:
/// inline runs are grouped under anonymous blocks.
pub proof fn lemma_no_bare_inline(st: StyledNodeM)
    ensures
        box_no_bare_inline(spec_build_box(st)),
    decreases st, 1int,
{
    lemma_build_children_no_bare_inline(
        st.children,
        display_of(st.specified_values) == Display::Block,
    );
}

// ---------------------------------------------------------------------------
// Determinism
// ---------------------------------------------------------------------------

/// The display list a render pass produces, as a function of its inputs.
pub open spec fn spec_pipeline(n: NodeM, sheet: StylesheetM, viewport: DimsM) -> Seq<CommandM> {
    spec_display_list(spec_layout_tree(spec_style(n, sheet.rules), viewport))
}

/// Two render passes over equal document, stylesheet and viewport produce
/// equal display lists: every executable stage's contract pins its result to
/// the corresponding specification function.
pub proof fn lemma_pipeline_deterministic(
    n1: NodeM,
    sheet1: StylesheetM,
    viewport1: DimsM,
    n2: NodeM,
    sheet2: StylesheetM,
    viewport2: DimsM,
    l1: Seq<CommandM>,
    l2: Seq<CommandM>,
)
    requires
        n1 == n2,
        sheet1 == sheet2,
        viewport1 == viewport2,
        l1 == spec_pipeline(n1, sheet1, viewport1),
        l2 == spec_pipeline(n2, sheet2, viewport2),
    ensures
        l1 == l2,
{
}

// ---------------------------------------------------------------------------
// Paint order
// ---------------------------------------------------------------------------

proof fn lemma_children_offset(cs: Seq<LayoutBoxM>, k: int) -> (off: int)
    requires
        0 <= k < cs.len(),
    ensures
        0 <= off,
        off + spec_display_list(cs[k]).len() <= spec_display_children(cs).len(),
        forall|m: int| 0 <= m < spec_display_list(cs[k]).len()
            ==> spec_display_children(cs)[off + m] == spec_display_list(cs[k])[m],
    decreases cs,
{
    if k == 0 {
        0
    } else {
        let off0 = lemma_children_offset(cs.drop_first(), k - 1);
        assert(cs.drop_first()[k - 1] == cs[k]);
        spec_display_list(cs[0]).len() + off0
    }
}

/// `b` is a box of the subtree rooted at `t`.
pub open spec fn is_descendant(t: LayoutBoxM, b: LayoutBoxM) -> bool
    decreases t,
{
    b == t || exists|k: int|
        0 <= k < t.children.len() && is_descendant(#[trigger] t.children[k], b)
}

/// A subtree's display list appears contiguously, in order, inside the whole
/// tree's display list.
proof fn lemma_display_list_embeds(t: LayoutBoxM, b: LayoutBoxM) -> (off: int)
    requires
        is_descendant(t, b),
    ensures
        0 <= off,
        off + spec_display_list(b).len() <= spec_display_list(t).len(),
        forall|m: int| 0 <= m < spec_display_list(b).len()
            ==> spec_display_list(t)[off + m] == spec_display_list(b)[m],
    decreases t,
{
    if b == t {
        0
    } else {
        let k = choose|k: int|
            0 <= k < t.children.len() && is_descendant(#[trigger] t.children[k], b);
        let off1 = lemma_display_list_embeds(t.children[k], b);
        let off2 = lemma_children_offset(t.children, k);
        let own = own_cmds(t);
        let off = own.len() + off2 + off1;
        assert forall|m: int| 0 <= m < spec_display_list(b).len() implies spec_display_list(
            t,
        )[off + m] == spec_display_list(b)[m] by {
            assert(spec_display_list(t)[off + m] == spec_display_children(t.children)[off2 + (
            off1 + m)]);
            assert(spec_display_children(t.children)[off2 + (off1 + m)] == spec_display_list(
                t.children[k],
            )[off1 + m]);
        }
        off
    }
}

/// A box that carries a background and has a text child emits the background/// A box that carries a background and has a text child emits the background
/// command before the child's text command.
pub proof fn lemma_background_before_child_text(b: LayoutBoxM, k: int, c: Color, txt: Seq<char>)
    requires
        spec_get_color_box(b, "background"@) == Option::Some(c),
        box_text(b) is None,
        !(b.box_type is AnonymousBlock),
        0 <= k < b.children.len(),
        box_text(b.children[k]) == Option::Some(txt),
    ensures
        exists|i: int, j: int|
            #![auto]
            0 <= i < j < spec_display_list(b).len() && spec_display_list(b)[i]
                == CommandM::SolidColor(c, spec_border_box(b.dimensions))
                && spec_display_list(b)[j] == CommandM::Text(
                txt,
                spec_border_box(b.children[k].dimensions),
            ),
{
    let l = spec_display_list(b);
    let own = own_cmds(b);
    let bb = spec_border_box(b.dimensions);
    assert(own[0] == CommandM::SolidColor(c, bb));
    assert(own.len() >= 1);
    assert(l[0] == own[0]);
    let off = lemma_children_offset(b.children, k);
    let child = b.children[k];
    let cl = spec_display_list(child);
    assert(cl[0] == CommandM::Text(txt, spec_border_box(child.dimensions)));
    assert(cl.len() >= 1);
    assert(spec_display_children(b.children)[off] == cl[0]);
    let j = own.len() + off;
    assert(l[j] == spec_display_children(b.children)[off]);
    assert(0 < j < l.len());
    assert(l[0] == CommandM::SolidColor(c, bb) && l[j] == CommandM::Text(
        txt,
        spec_border_box(child.dimensions),
    ));
}

proof fn lemma_nbi_index(cs: Seq<LayoutBoxM>, pb: bool, i: int)
    requires
        boxes_no_bare_inline(cs, pb),
        0 <= i < cs.len(),
    ensures
        box_no_bare_inline(cs[i]),
        pb ==> !(cs[i].box_type is InlineNode),
    decreases cs,
{
    if i < cs.len() - 1 {
        lemma_nbi_index(cs.drop_last(), pb, i);
    }
}

proof fn lemma_nbi_from_all(cs: Seq<LayoutBoxM>, pb: bool)
    requires
        forall|i: int| 0 <= i < cs.len() ==> box_no_bare_inline(#[trigger] cs[i]),
        pb ==> forall|i: int| 0 <= i < cs.len() ==> !((#[trigger] cs[i]).box_type is InlineNode),
    ensures
        boxes_no_bare_inline(cs, pb),
    decreases cs,
{
    if cs.len() > 0 {
        assert forall|i: int| 0 <= i < cs.drop_last().len() implies box_no_bare_inline(
            #[trigger] cs.drop_last()[i]) by {
            assert(cs.drop_last()[i] == cs[i]);
        }
        if pb {
            assert forall|i: int| 0 <= i < cs.drop_last().len() implies !((
            #[trigger] cs.drop_last()[i]).box_type is InlineNode) by {
                assert(cs.drop_last()[i] == cs[i]);
            }
        }
        lemma_nbi_from_all(cs.drop_last(), pb);
        assert(cs.last() == cs[cs.len() - 1]);
    }
}

proof fn lemma_lay_block_children_nbi(cs: Seq<LayoutBoxM>, cb: RectM)
    requires
        forall|i: int| 0 <= i < cs.len() ==> box_no_bare_inline(#[trigger] cs[i]),
    ensures
        ({
            let r = spec_lay_block_children(cs, cb);
            &&& r.len() == cs.len()
            &&& forall|i: int| 0 <= i < r.len() ==> box_no_bare_inline(#[trigger] r[i])
                && r[i].box_type == cs[i].box_type
        }),
    decreases cs, 0int,
{
    if cs.len() > 0 {
        let c = spec_layout(cs[0], cb);
        lemma_layout_preserves_nbi(cs[0], cb);
        assert forall|i: int| 0 <= i < cs.drop_first().len() implies box_no_bare_inline(
            #[trigger] cs.drop_first()[i]) by {
            assert(cs.drop_first()[i] == cs[i + 1]);
        }
        lemma_lay_block_children_nbi(
            cs.drop_first(),
            RectM { x: cb.x, y: cb.y, width: cb.width, height: cb.height + mb_h(c) },
        );
        let r = spec_lay_block_children(cs, cb);
        assert forall|i: int| 0 <= i < r.len() implies box_no_bare_inline(#[trigger] r[i])
            && r[i].box_type == cs[i].box_type by {
            if i > 0 {
                assert(r[i] == spec_lay_block_children(
                    cs.drop_first(),
                    RectM { x: cb.x, y: cb.y, width: cb.width, height: cb.height + mb_h(c) },
                )[i - 1]);
                assert(cs.drop_first()[i - 1] == cs[i]);
            }
        }
    }
}

proof fn lemma_lay_inline_children_nbi(cs: Seq<LayoutBoxM>, x: int, y: int, w: int, h: int)
    requires
        forall|i: int| 0 <= i < cs.len() ==> box_no_bare_inline(#[trigger] cs[i]),
    ensures
        ({
            let r = spec_lay_inline_children(cs, x, y, w, h);
            &&& r.len() == cs.len()
            &&& forall|i: int| 0 <= i < r.len() ==> box_no_bare_inline(#[trigger] r[i])
                && r[i].box_type == cs[i].box_type
        }),
    decreases cs, 0int,
{
    if cs.len() > 0 {
        let c = spec_layout(cs[0], RectM { x: x, y: y, width: w, height: h });
        lemma_layout_preserves_nbi(cs[0], RectM { x: x, y: y, width: w, height: h });
        assert forall|i: int| 0 <= i < cs.drop_first().len() implies box_no_bare_inline(
            #[trigger] cs.drop_first()[i]) by {
            assert(cs.drop_first()[i] == cs[i + 1]);
        }
        lemma_lay_inline_children_nbi(cs.drop_first(), x, y, mb_w(c), h + mb_h(c));
        let r = spec_lay_inline_children(cs, x, y, w, h);
        assert forall|i: int| 0 <= i < r.len() implies box_no_bare_inline(#[trigger] r[i])
            && r[i].box_type == cs[i].box_type by {
            if i > 0 {
                assert(r[i] == spec_lay_inline_children(cs.drop_first(), x, y, mb_w(c), h + mb_h(
                    c))[i - 1]);
                assert(cs.drop_first()[i - 1] == cs[i]);
            }
        }
    }
}

proof fn lemma_lay_anon_children_nbi(cs: Seq<LayoutBoxM>, cb: RectM)
    requires
        forall|i: int| 0 <= i < cs.len() ==> box_no_bare_inline(#[trigger] cs[i]),
    ensures
        ({
            let r = spec_lay_anon_children(cs, cb);
            &&& r.len() == cs.len()
            &&& forall|i: int| 0 <= i < r.len() ==> box_no_bare_inline(#[trigger] r[i])
                && r[i].box_type == cs[i].box_type
        }),
    decreases cs, 0int,
{
    if cs.len() > 0 {
        lemma_layout_preserves_nbi(cs[0], cb);
        assert forall|i: int| 0 <= i < cs.drop_first().len() implies box_no_bare_inline(
            #[trigger] cs.drop_first()[i]) by {
            assert(cs.drop_first()[i] == cs[i + 1]);
        }
        lemma_lay_anon_children_nbi(cs.drop_first(), cb);
        let r = spec_lay_anon_children(cs, cb);
        assert forall|i: int| 0 <= i < r.len() implies box_no_bare_inline(#[trigger] r[i])
            && r[i].box_type == cs[i].box_type by {
            if i > 0 {
                assert(r[i] == spec_lay_anon_children(cs.drop_first(), cb)[i - 1]);
                assert(cs.drop_first()[i - 1] == cs[i]);
            }
        }
    }
}

/// The geometry solve keeps every box's kind and child order, so it keeps the
/// grouping invariant: no block box ends up with a bare inline child.
pub proof fn lemma_layout_preserves_nbi(b: LayoutBoxM, cb: RectM)
    requires
        box_no_bare_inline(b),
    ensures
        box_no_bare_inline(spec_layout(b, cb)),
        spec_layout(b, cb).box_type == b.box_type,
    decreases b, 1int,
{
    let r = spec_layout(b, cb);
    match b.box_type {
        BoxTypeM::BlockNode(st) => {
            assert forall|i: int| 0 <= i < b.children.len() implies box_no_bare_inline(
                #[trigger] b.children[i]) by {
                lemma_nbi_index(b.children, true, i);
            }
            let bw = crate::layout::spec_block_width(st.specified_values, cb.width);
            let tb = crate::layout::spec_top_bottom(st.specified_values);
            let x = cb.x + bw.margin_left + bw.border_left + bw.padding_left;
            let y = cb.height + cb.y + tb.margin_top + tb.border_top + tb.padding_top;
            let cb2 = RectM { x: x, y: y, width: bw.width, height: 0 };
            lemma_lay_block_children_nbi(b.children, cb2);
            let kids = spec_lay_block_children(b.children, cb2);
            assert forall|i: int| 0 <= i < kids.len() implies !((#[trigger] kids[i]).box_type
                is InlineNode) by {
                lemma_nbi_index(b.children, true, i);
            }
            lemma_nbi_from_all(kids, true);
        },
        BoxTypeM::InlineNode(st) => {
            assert forall|i: int| 0 <= i < b.children.len() implies box_no_bare_inline(
                #[trigger] b.children[i]) by {
                lemma_nbi_index(b.children, false, i);
            }
            let ml = crate::layout::spec_px_of(st.specified_values, "margin-left"@, "margin"@);
            let tb = crate::layout::spec_top_bottom(st.specified_values);
            let x = cb.x + ml;
            let y = cb.height + cb.y + tb.margin_top + tb.border_top + tb.padding_top;
            lemma_lay_inline_children_nbi(b.children, x, y, 0, 0);
            let kids = spec_lay_inline_children(b.children, x, y, 0, 0);
            lemma_nbi_from_all(kids, false);
        },
        BoxTypeM::AnonymousBlock => {
            assert forall|i: int| 0 <= i < b.children.len() implies box_no_bare_inline(
                #[trigger] b.children[i]) by {
                lemma_nbi_index(b.children, false, i);
            }
            lemma_lay_anon_children_nbi(b.children, cb);
            let kids = spec_lay_anon_children(b.children, cb);
            lemma_nbi_from_all(kids, false);
        },
    }
}

/// The solved tree a render pass lays out keeps the grouping invariant
/// end to end.
pub proof fn lemma_layout_tree_no_bare_inline(st: StyledNodeM, cbd: DimsM)
    ensures
        box_no_bare_inline(spec_layout_tree(st, cbd)),
{
    lemma_no_bare_inline(st);
    lemma_layout_preserves_nbi(
        spec_build_box(st),
        RectM { x: cbd.content.x, y: cbd.content.y, width: cbd.content.width, height: 0 },
    );
}


/// The same paint-order guarantee anywhere in a rendered tree: a box with a
/// background and a text child emits the background command before that
/// child's text command, wherever the box sits under the rendered root.
pub proof fn lemma_background_before_descendant_text(
    t: LayoutBoxM,
    b: LayoutBoxM,
    k: int,
    c: Color,
    txt: Seq<char>,
)
    requires
        is_descendant(t, b),
        spec_get_color_box(b, "background"@) == Option::Some(c),
        box_text(b) is None,
        !(b.box_type is AnonymousBlock),
        0 <= k < b.children.len(),
        box_text(b.children[k]) == Option::Some(txt),
    ensures
        exists|i: int, j: int|
            #![auto]
            0 <= i < j < spec_display_list(t).len() && spec_display_list(t)[i]
                == CommandM::SolidColor(c, spec_border_box(b.dimensions))
                && spec_display_list(t)[j] == CommandM::Text(
                txt,
                spec_border_box(b.children[k].dimensions),
            ),
{
    lemma_background_before_child_text(b, k, c, txt);
    let off = lemma_display_list_embeds(t, b);
    let (i0, j0) = choose|i: int, j: int|
        #![auto]
        0 <= i < j < spec_display_list(b).len() && spec_display_list(b)[i]
            == CommandM::SolidColor(c, spec_border_box(b.dimensions)) && spec_display_list(b)[j]
            == CommandM::Text(txt, spec_border_box(b.children[k].dimensions));
    assert(spec_display_list(t)[off + i0] == spec_display_list(b)[i0]);
    assert(spec_display_list(t)[off + j0] == spec_display_list(b)[j0]);
    assert(0 <= off + i0 < off + j0 < spec_display_list(t).len());
}

} // verus!
