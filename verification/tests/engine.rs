use rust_browser::css::{Color, Declaration, Rule, Selector, SimpleSelector, Stylesheet, Unit,
    Value};
use rust_browser::css;
use rust_browser::dom::Node;
use rust_browser::html;
use rust_browser::layout::{BoxType, Dimensions, LayoutBox, Rect, layout_tree};
use rust_browser::painter::{Canvas, DisplayCommand, paint, render_layout_box_tree};
use rust_browser::style::{Display, style_tree};

fn tag_selector(tag: &str) -> Selector {
    Selector::Simple(SimpleSelector {
        tag_name: Some(tag.to_string()),
        id: None,
        class: Vec::new(),
    })
}

fn class_selector(class: &str) -> Selector {
    Selector::Simple(SimpleSelector {
        tag_name: None,
        id: None,
        class: vec![class.to_string()],
    })
}

fn decl(name: &str, value: Value) -> Declaration {
    Declaration { name: name.to_string(), value }
}

fn px(n: i64) -> Value {
    Value::Length(n, Unit::Px)
}

fn kw(s: &str) -> Value {
    Value::Keyword(s.to_string())
}

fn elem(tag: &str, children: Vec<Node>) -> Node {
    Node::elem(tag.to_string(), Vec::new(), children)
}

fn viewport(width: i64, height: i64) -> Dimensions {
    let mut d = Dimensions::zero();
    d.content.width = width;
    d.content.height = height;
    d
}

fn block_sheet(decls: Vec<Declaration>) -> Stylesheet {
    let mut all = vec![decl("display", kw("block"))];
    all.extend(decls);
    Stylesheet { rules: vec![Rule { selectors: vec![tag_selector("div")], declarations: all }] }
}

#[test]
fn test_parse_css() {
    let src = "div { width: 100px; height: 50px; color: #ffffff; background-color: #003300; }";
    let stylesheet = css::parse(src.to_string()).unwrap();
    assert_eq!(
        stylesheet,
        Stylesheet {
            rules: vec![Rule {
                selectors: vec![Selector::Simple(SimpleSelector {
                    tag_name: Some("div".to_string()),
                    id: None,
                    class: Vec::new(),
                })],
                declarations: vec![
                    Declaration { name: "width".to_string(), value: Value::Length(100, Unit::Px) },
                    Declaration { name: "height".to_string(), value: Value::Length(50, Unit::Px) },
                    Declaration {
                        name: "color".to_string(),
                        value: Value::Color(Color { r: 0xff, g: 0xff, b: 0xff, a: 0xff }),
                    },
                    Declaration {
                        name: "background-color".to_string(),
                        value: Value::Color(Color { r: 0x00, g: 0x33, b: 0x00, a: 0xff }),
                    },
                ],
            }],
        }
    );
}

#[test]
fn css_parse_rejects_missing_semicolon() {
    assert!(css::parse("div { width: 100px }".to_string()).is_err());
}

#[test]
fn css_parse_rejects_bad_hex() {
    assert!(css::parse("div { color: #zzzzzz; }".to_string()).is_err());
}

#[test]
fn css_parse_rejects_unknown_unit() {
    assert!(css::parse("div { width: 10em; }".to_string()).is_err());
}

#[test]
fn css_parse_empty_sheet() {
    let sheet = css::parse("   ".to_string()).unwrap();
    assert_eq!(sheet.rules.len(), 0);
}

#[test]
fn to_px_of_keyword_is_zero() {
    assert_eq!(kw("auto").to_px(), 0);
    assert_eq!(px(42).to_px(), 42);
}

#[test]
fn specificity_ranks_id_class_tag() {
    let s = Selector::Simple(SimpleSelector {
        tag_name: Some("p".to_string()),
        id: Some("x".to_string()),
        class: vec!["a".to_string(), "b".to_string()],
    });
    assert_eq!(s.specificity(), (1, 2, 1));
}

#[test]
fn html_parse_element_with_attributes() {
    let doc = html::parse("<div class=\"note wide\" id=\"main\">hi</div>".to_string()).unwrap();
    match &doc.data {
        rust_browser::dom::NodeType::Element(e) => {
            assert_eq!(e.tag_name, "div");
            assert_eq!(e.id(), Some(&"main".to_string()));
            assert_eq!(e.classes(), vec!["note".to_string(), "wide".to_string()]);
        }
        _ => panic!("expected an element"),
    }
    assert_eq!(doc.children.len(), 1);
}

#[test]
fn html_parse_wraps_siblings() {
    let doc = html::parse("<p>a</p><p>b</p>".to_string()).unwrap();
    match &doc.data {
        rust_browser::dom::NodeType::Element(e) => assert_eq!(e.tag_name, "html"),
        _ => panic!("expected an element"),
    }
    assert_eq!(doc.children.len(), 2);
}

#[test]
fn html_parse_rejects_mismatched_close() {
    assert!(html::parse("<div>text</span>".to_string()).is_err());
}

// The styled tree mirrors the document tree's shape.
#[test]
fn styled_tree_keeps_shape() {
    let doc = elem("div", vec![elem("p", vec![Node::text("a".to_string())]), elem("p", vec![])]);
    let sheet = Stylesheet { rules: Vec::new() };
    let styled = style_tree(&doc, &sheet);
    assert_eq!(styled.children.len(), 2);
    assert_eq!(styled.children[0].children.len(), 1);
    assert_eq!(styled.children[1].children.len(), 0);
}

// A higher-specificity rule wins regardless of source order; a tie goes to
// the later rule.
#[test]
fn cascade_specificity_beats_order() {
    let doc = Node::elem(
        "div".to_string(),
        vec![("class".to_string(), "wide".to_string())],
        vec![],
    );
    let sheet = Stylesheet {
        rules: vec![
            Rule {
                selectors: vec![class_selector("wide")],
                declarations: vec![decl("width", px(200))],
            },
            Rule {
                selectors: vec![tag_selector("div")],
                declarations: vec![decl("width", px(50))],
            },
        ],
    };
    let styled = style_tree(&doc, &sheet);
    assert_eq!(styled.value("width"), Some(px(200)));

    let tie_sheet = Stylesheet {
        rules: vec![
            Rule {
                selectors: vec![tag_selector("div")],
                declarations: vec![decl("width", px(1))],
            },
            Rule {
                selectors: vec![tag_selector("div")],
                declarations: vec![decl("width", px(2))],
            },
        ],
    };
    let styled2 = style_tree(&doc, &tie_sheet);
    assert_eq!(styled2.value("width"), Some(px(2)));
}

#[test]
fn display_classification() {
    let doc = elem("div", vec![]);
    let sheet = block_sheet(vec![]);
    let styled = style_tree(&doc, &sheet);
    assert_eq!(styled.display(), Display::Block);
    let none_sheet = Stylesheet {
        rules: vec![Rule {
            selectors: vec![tag_selector("div")],
            declarations: vec![decl("display", kw("none"))],
        }],
    };
    let styled2 = style_tree(&doc, &none_sheet);
    assert_eq!(styled2.display(), Display::DisplayNone);
    let sheet3 = Stylesheet { rules: Vec::new() };
    let styled3 = style_tree(&doc, &sheet3);
    assert_eq!(styled3.display(), Display::Inline);
}

// Under-constrained width: auto width absorbs the whole underflow.
#[test]
fn width_underflow_under_constrained() {
    let doc = elem("div", vec![]);
    let sheet = block_sheet(vec![decl("width", kw("auto")), decl("margin-left", px(10))]);
    let styled = style_tree(&doc, &sheet);
    let lb = layout_tree(styled, viewport(100, 100));
    assert_eq!(lb.dimensions.content.width, 90);
    assert_eq!(lb.dimensions.margin.left, 10);
    assert_eq!(lb.dimensions.margin.right, 0);
}

// Over-constrained width: the deficit zeroes margin-left first, then the
// remainder comes out of the width.
#[test]
fn width_underflow_over_constrained() {
    let doc = elem("div", vec![]);
    let sheet = block_sheet(vec![decl("width", px(60)), decl("margin-left", px(20))]);
    let styled = style_tree(&doc, &sheet);
    let lb = layout_tree(styled, viewport(50, 100));
    assert_eq!(lb.dimensions.margin.left, 0);
    assert_eq!(lb.dimensions.margin.right, 0);
    assert_eq!(lb.dimensions.border.left, 0);
    assert_eq!(lb.dimensions.border.right, 0);
    assert_eq!(lb.dimensions.padding.left, 0);
    assert_eq!(lb.dimensions.padding.right, 0);
    assert_eq!(lb.dimensions.content.width, 50);
}

// Fixed width: the whole surplus goes to margin-right.
#[test]
fn width_surplus_goes_to_margin_right() {
    let doc = elem("div", vec![]);
    let sheet = block_sheet(vec![decl("width", px(30))]);
    let styled = style_tree(&doc, &sheet);
    let lb = layout_tree(styled, viewport(100, 100));
    assert_eq!(lb.dimensions.content.width, 30);
    assert_eq!(lb.dimensions.margin.right, 70);
}

fn two_children_doc() -> (Node, Stylesheet) {
    let doc = Node::elem(
        "div".to_string(),
        Vec::new(),
        vec![
            Node::elem("p".to_string(), vec![("class".to_string(), "a".to_string())], vec![]),
            Node::elem("p".to_string(), vec![("class".to_string(), "b".to_string())], vec![]),
        ],
    );
    let sheet = Stylesheet {
        rules: vec![
            Rule {
                selectors: vec![tag_selector("div"), tag_selector("p")],
                declarations: vec![decl("display", kw("block"))],
            },
            Rule {
                selectors: vec![class_selector("a")],
                declarations: vec![decl("height", px(20))],
            },
            Rule {
                selectors: vec![class_selector("b")],
                declarations: vec![decl("height", px(30))],
            },
        ],
    };
    (doc, sheet)
}

// Children's margin-box heights accumulate into the parent height.
#[test]
fn height_accumulates_children() {
    let (doc, sheet) = two_children_doc();
    let styled = style_tree(&doc, &sheet);
    let lb = layout_tree(styled, viewport(100, 100));
    assert_eq!(lb.dimensions.content.height, 50);
}

// An explicit height overrides whatever the children accumulate.
#[test]
fn height_explicit_overrides_children() {
    let (doc, mut sheet) = two_children_doc();
    sheet.rules.push(Rule {
        selectors: vec![tag_selector("div")],
        declarations: vec![decl("height", px(15))],
    });
    let styled = style_tree(&doc, &sheet);
    let lb = layout_tree(styled, viewport(100, 100));
    assert_eq!(lb.dimensions.content.height, 15);
}

// Inline runs under a block parent group into anonymous blocks: inline,
// block, inline makes exactly two wrappers.
#[test]
fn anonymous_blocks_group_inline_runs() {
    let doc = elem(
        "div",
        vec![elem("span", vec![]), elem("p", vec![]), elem("em", vec![])],
    );
    let sheet = Stylesheet {
        rules: vec![
            Rule {
                selectors: vec![tag_selector("div"), tag_selector("p")],
                declarations: vec![decl("display", kw("block"))],
            },
        ],
    };
    let styled = style_tree(&doc, &sheet);
    let lb = layout_tree(styled, viewport(100, 100));
    assert_eq!(lb.children.len(), 3);
    let kinds: Vec<&'static str> = lb
        .children
        .iter()
        .map(|c| match c.box_type {
            BoxType::BlockNode(_) => "block",
            BoxType::InlineNode(_) => "inline",
            BoxType::AnonymousBlock => "anon",
        })
        .collect();
    assert_eq!(kinds, vec!["anon", "block", "anon"]);
    match &lb.children[0].box_type {
        BoxType::AnonymousBlock => assert_eq!(lb.children[0].children.len(), 1),
        _ => panic!("expected an anonymous block"),
    }
}

// Consecutive inline children share one anonymous wrapper.
#[test]
fn anonymous_block_reused_for_consecutive_inlines() {
    let doc = elem("div", vec![elem("span", vec![]), elem("em", vec![])]);
    let sheet = block_sheet(vec![]);
    let styled = style_tree(&doc, &sheet);
    let lb = layout_tree(styled, viewport(100, 100));
    assert_eq!(lb.children.len(), 1);
    match &lb.children[0].box_type {
        BoxType::AnonymousBlock => assert_eq!(lb.children[0].children.len(), 2),
        _ => panic!("expected an anonymous block"),
    }
}

// Text sizing: character count times the fixed advance, fixed line height.
#[test]
fn text_box_metrics() {
    let doc = elem("div", vec![Node::text("hello".to_string())]);
    let sheet = block_sheet(vec![]);
    let styled = style_tree(&doc, &sheet);
    let lb = layout_tree(styled, viewport(100, 100));
    let anon = &lb.children[0];
    let text_box = &anon.children[0];
    assert_eq!(text_box.dimensions.content.width, 5 * 8);
    assert_eq!(text_box.dimensions.content.height, 16);
    assert_eq!(lb.dimensions.content.height, 16);
}

fn render(doc: &Node, sheet: &Stylesheet) -> Vec<DisplayCommand> {
    let styled = style_tree(doc, sheet);
    let lb = layout_tree(styled, viewport(200, 100));
    let mut list = Vec::new();
    render_layout_box_tree(&mut list, &lb);
    list
}

// Identical inputs produce identical display lists.
#[test]
fn pipeline_is_deterministic() {
    let (doc, sheet) = two_children_doc();
    let l1 = render(&doc, &sheet);
    let l2 = render(&doc, &sheet);
    assert_eq!(l1, l2);
}

// A background paints before a text child's command.
#[test]
fn background_paints_before_child_text() {
    let doc = elem("div", vec![Node::text("hi".to_string())]);
    let green = Color { r: 0, g: 128, b: 0, a: 255 };
    let sheet = block_sheet(vec![decl("background", Value::Color(green))]);
    let list = render(&doc, &sheet);
    let bg_at = list
        .iter()
        .position(|c| matches!(c, DisplayCommand::SolidColor(col, _) if *col == green))
        .expect("background command missing");
    let text_at = list
        .iter()
        .position(|c| matches!(c, DisplayCommand::Text(s, _) if s == "hi"))
        .expect("text command missing");
    assert!(bg_at < text_at);
}

// Border colors paint one thin rectangle per edge.
#[test]
fn border_emits_four_edges() {
    let red = Color { r: 255, g: 0, b: 0, a: 255 };
    let doc = elem("div", vec![]);
    let sheet = block_sheet(vec![
        decl("border-color", Value::Color(red)),
        decl("border-width", px(2)),
        decl("width", px(10)),
        decl("height", px(10)),
    ]);
    let list = render(&doc, &sheet);
    let solid: Vec<_> = list
        .iter()
        .filter(|c| matches!(c, DisplayCommand::SolidColor(col, _) if *col == red))
        .collect();
    assert_eq!(solid.len(), 4);
    match solid[0] {
        DisplayCommand::SolidColor(_, r) => {
            assert_eq!(r.width, 2);
            assert_eq!(r.height, 14);
        }
        _ => unreachable!(),
    }
}

// Painting fills the clipped background rectangle on the canvas.
#[test]
fn paint_fills_pixels() {
    let blue = Color { r: 0, g: 0, b: 255, a: 255 };
    let doc = elem("div", vec![]);
    let sheet = block_sheet(vec![decl("background", Value::Color(blue)), decl("height", px(4))]);
    let styled = style_tree(&doc, &sheet);
    let lb = layout_tree(styled, viewport(8, 4));
    let canvas = paint(&lb, Rect { x: 0, y: 0, width: 8, height: 4 });
    assert_eq!(canvas.width, 8);
    assert_eq!(canvas.height, 4);
    assert_eq!(canvas.pixels.len(), 32);
    assert!(canvas.pixels.iter().all(|p| *p == blue));
}

#[test]
fn canvas_starts_white() {
    let canvas = Canvas::new(2, 2);
    let white = Color { r: 255, g: 255, b: 255, a: 255 };
    assert_eq!(canvas.pixels, vec![white; 4]);
}

// A hidden subtree is omitted from layout entirely.
#[test]
fn display_none_child_is_dropped() {
    let doc = elem("div", vec![elem("p", vec![]), elem("nav", vec![])]);
    let sheet = Stylesheet {
        rules: vec![
            Rule {
                selectors: vec![tag_selector("div"), tag_selector("p")],
                declarations: vec![decl("display", kw("block"))],
            },
            Rule {
                selectors: vec![tag_selector("nav")],
                declarations: vec![decl("display", kw("none"))],
            },
        ],
    };
    let styled = style_tree(&doc, &sheet);
    let lb = layout_tree(styled, viewport(100, 100));
    assert_eq!(lb.children.len(), 1);
}

// The two-key lookup falls back from the per-side property to the shorthand.
#[test]
fn lookup_falls_back_to_shorthand() {
    let doc = elem("div", vec![]);
    let sheet = block_sheet(vec![decl("margin", px(7)), decl("width", px(10))]);
    let styled = style_tree(&doc, &sheet);
    let lb = layout_tree(styled, viewport(100, 100));
    assert_eq!(lb.dimensions.margin.left, 7);
    assert_eq!(lb.dimensions.margin.top, 7);
    assert_eq!(lb.dimensions.padding.left, 0);
}

// Block positions stack vertically inside the containing block.
#[test]
fn block_children_stack_vertically() {
    let (doc, sheet) = two_children_doc();
    let styled = style_tree(&doc, &sheet);
    let lb = layout_tree(styled, viewport(100, 100));
    assert_eq!(lb.children[0].dimensions.content.y, 0);
    assert_eq!(lb.children[1].dimensions.content.y, 20);
    assert_eq!(lb.children[0].dimensions.content.x, 0);
}

// Painting clips commands to the canvas bounds instead of failing.
#[test]
fn paint_clips_to_canvas() {
    let blue = Color { r: 0, g: 0, b: 255, a: 255 };
    let doc = elem("div", vec![]);
    let sheet = block_sheet(vec![
        decl("background", Value::Color(blue)),
        decl("width", px(100)),
        decl("height", px(50)),
    ]);
    let styled = style_tree(&doc, &sheet);
    let lb = layout_tree(styled, viewport(10, 4));
    let canvas = paint(&lb, Rect { x: 0, y: 0, width: 10, height: 4 });
    assert!(canvas.pixels.iter().all(|p| *p == blue));
}

// An anonymous wrapper takes the last child's margin-box width and the sum
// of the children's heights.
#[test]
fn anonymous_block_tracks_children() {
    let doc = elem(
        "div",
        vec![Node::text("ab".to_string()), Node::text("abcd".to_string())],
    );
    let sheet = block_sheet(vec![]);
    let styled = style_tree(&doc, &sheet);
    let lb = layout_tree(styled, viewport(100, 100));
    let anon = &lb.children[0];
    assert!(matches!(anon.box_type, BoxType::AnonymousBlock));
    assert_eq!(anon.dimensions.content.width, 4 * 8);
    assert_eq!(anon.dimensions.content.height, 32);
}

// Keyword and color values contribute no pixels to the width sum.
#[test]
fn non_length_values_count_as_zero() {
    let doc = elem("div", vec![]);
    let sheet = block_sheet(vec![
        decl("margin-left", kw("auto")),
        decl("width", px(30)),
    ]);
    let styled = style_tree(&doc, &sheet);
    let lb = layout_tree(styled, viewport(100, 100));
    assert_eq!(lb.dimensions.margin.left, 0);
    assert_eq!(lb.dimensions.content.width, 30);
    assert_eq!(lb.dimensions.margin.right, 70);
}

// Class attributes tokenize on runs of whitespace, dropping empty tokens.
#[test]
fn classes_tokenize_on_whitespace() {
    let doc = html::parse("<div class=\"a\tb\">x</div>".to_string()).unwrap();
    match &doc.data {
        rust_browser::dom::NodeType::Element(e) => {
            assert_eq!(e.classes(), vec!["a".to_string(), "b".to_string()]);
        }
        _ => panic!("expected an element"),
    }
    let doc2 = html::parse("<div class=\" a  b \">x</div>".to_string()).unwrap();
    match &doc2.data {
        rust_browser::dom::NodeType::Element(e) => {
            assert_eq!(e.classes(), vec!["a".to_string(), "b".to_string()]);
        }
        _ => panic!("expected an element"),
    }
}

// A class selector matches across any whitespace separator.
#[test]
fn class_selector_matches_tab_separated() {
    let doc = Node::elem(
        "div".to_string(),
        vec![("class".to_string(), "a\tb".to_string())],
        vec![],
    );
    let sheet = Stylesheet {
        rules: vec![Rule {
            selectors: vec![class_selector("a")],
            declarations: vec![decl("width", px(5))],
        }],
    };
    let styled = style_tree(&doc, &sheet);
    assert_eq!(styled.value("width"), Some(px(5)));
}

// Within one rule, the later declaration of a property wins.
#[test]
fn cascade_last_declaration_in_rule_wins() {
    let doc = elem("div", vec![]);
    let sheet = Stylesheet {
        rules: vec![Rule {
            selectors: vec![tag_selector("div")],
            declarations: vec![decl("width", px(1)), decl("width", px(2))],
        }],
    };
    let styled = style_tree(&doc, &sheet);
    assert_eq!(styled.value("width"), Some(px(2)));
}

// Parsed selector lists come back ranked by descending specificity.
#[test]
fn parsed_selectors_ranked_by_specificity() {
    let sheet = css::parse("p, #x, .a { width: 1px; }".to_string()).unwrap();
    let specs: Vec<(usize, usize, usize)> = sheet.rules[0]
        .selectors
        .iter()
        .map(|s| s.specificity())
        .collect();
    assert_eq!(specs, vec![(1, 0, 0), (0, 1, 0), (0, 0, 1)]);
}
