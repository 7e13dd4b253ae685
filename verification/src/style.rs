//! Style resolution: selector matching and the cascade, producing a styled
//! tree that mirrors the document tree.
use vstd::prelude::*;
use crate::css::{Declaration, DeclarationM, Rule, RuleM, Selector, SelectorM, SimpleSelector,
    SimpleSelectorM, Specificity, Stylesheet, Value, ValueM, Color, selectors_sorted_desc,
    spec_lex_ge, lex_ge};
use crate::dom::{ElementData, ElementDataM, Node, NodeM, NodeType, NodeTypeM, nodes_view};
use crate::strutil::str_eq;

verus! {

// ---------------------------------------------------------------------------
// Property mappings
// ---------------------------------------------------------------------------

/// Resolved property mapping, an association list with unique property names.
#[derive(Debug)]
pub struct PropertyMap {
    pub entries: Vec<Declaration>,
}

pub open spec fn decls_view(s: Seq<Declaration>) -> Seq<DeclarationM> {
    Seq::new(s.len(), |i: int| s[i]@)
}

/// The mapping an association list denotes: later entries shadow earlier ones.
pub open spec fn props_map(entries: Seq<DeclarationM>) -> Map<Seq<char>, ValueM>
    decreases entries,
{
    if entries.len() == 0 {
        Map::empty()
    } else {
        props_map(entries.drop_last()).insert(entries.last().name, entries.last().value)
    }
}

pub open spec fn unique_names(entries: Seq<DeclarationM>) -> bool {
    forall|i: int, j: int| 0 <= i < j < entries.len() ==> entries[i].name != entries[j].name
}

impl View for PropertyMap {
    type V = Map<Seq<char>, ValueM>;

    open spec fn view(&self) -> Map<Seq<char>, ValueM> {
        props_map(decls_view(self.entries@))
    }
}

pub proof fn lemma_props_map_match(entries: Seq<DeclarationM>, i: int)
    requires
        unique_names(entries),
        0 <= i < entries.len(),
    ensures
        props_map(entries).contains_key(entries[i].name),
        props_map(entries)[entries[i].name] == entries[i].value,
    decreases entries,
{
    if i < entries.len() - 1 {
        lemma_props_map_match(entries.drop_last(), i);
    }
}

pub proof fn lemma_props_map_no_match(entries: Seq<DeclarationM>, name: Seq<char>)
    requires
        forall|j: int| 0 <= j < entries.len() ==> entries[j].name != name,
    ensures
        !props_map(entries).contains_key(name),
    decreases entries,
{
    if entries.len() > 0 {
        lemma_props_map_no_match(entries.drop_last(), name);
    }
}

impl PropertyMap {
    pub open spec fn wf(self) -> bool {
        unique_names(decls_view(self.entries@))
    }

    /// An empty mapping.
    pub fn new() -> (r: PropertyMap)
        ensures
            r@ == Map::<Seq<char>, ValueM>::empty(),
            r.wf(),
    {
        PropertyMap { entries: Vec::new() }
    }

    /// The value bound to `name`, if any.
    pub fn get<'a>(&'a self, name: &str) -> (r: Option<&'a Value>)
        requires
            self.wf(),
        ensures
            match r {
                Option::Some(v) => self@.contains_key(name@) && self@[name@] == v@,
                Option::None => !self@.contains_key(name@),
            },
    {
        let ghost dv = decls_view(self.entries@);
        let mut i: usize = 0;
        while i < self.entries.len()
            invariant
                i <= self.entries.len(),
                self.wf(),
                dv == decls_view(self.entries@),
                forall|j: int| 0 <= j < i ==> dv[j].name != name@,
            decreases self.entries.len() - i,
        {
            if str_eq(self.entries[i].name.as_str(), name) {
                proof {
                    lemma_props_map_match(dv, i as int);
                }
                return Some(&self.entries[i].value);
            }
            i = i + 1;
        }
        proof {
            lemma_props_map_no_match(dv, name@);
        }
        None
    }
}

// ---------------------------------------------------------------------------
// Styled tree
// ---------------------------------------------------------------------------

/// A document node paired with its resolved property mapping; children mirror
/// the document tree.
#[derive(Debug)]
pub struct StyledNode {
    pub node_data: NodeType,
    pub specified_values: PropertyMap,
    pub children: Vec<StyledNode>,
}

pub ghost struct StyledNodeM {
    pub node_data: NodeTypeM,
    pub specified_values: Map<Seq<char>, ValueM>,
    pub children: Seq<StyledNodeM>,
}

pub open spec fn styled_nodes_view(cs: Seq<StyledNode>) -> Seq<StyledNodeM>
    decreases cs,
{
    if cs.len() == 0 {
        Seq::empty()
    } else {
        styled_nodes_view(cs.drop_last()).push(styled_node_view(cs.last()))
    }
}

pub open spec fn styled_node_view(n: StyledNode) -> StyledNodeM
    decreases n,
{
    StyledNodeM {
        node_data: n.node_data@,
        specified_values: n.specified_values@,
        children: styled_nodes_view(n.children@),
    }
}

impl View for StyledNode {
    type V = StyledNodeM;

    open spec fn view(&self) -> StyledNodeM {
        styled_node_view(*self)
    }
}

pub broadcast proof fn lemma_styled_nodes_view_len(cs: Seq<StyledNode>)
    ensures
        (#[trigger] styled_nodes_view(cs)).len() == cs.len(),
    decreases cs,
{
    if cs.len() > 0 {
        lemma_styled_nodes_view_len(cs.drop_last());
    }
}

pub broadcast proof fn lemma_styled_nodes_view_index(cs: Seq<StyledNode>, i: int)
    requires
        0 <= i < cs.len(),
    ensures
        #[trigger] styled_nodes_view(cs)[i] == styled_node_view(cs[i]),
    decreases cs,
{
    lemma_styled_nodes_view_len(cs.drop_last());
    if i < cs.len() - 1 {
        lemma_styled_nodes_view_index(cs.drop_last(), i);
    }
}

/// Well-formedness of a styled tree: every property mapping has unique names.
pub open spec fn sns_wf(cs: Seq<StyledNode>) -> bool
    decreases cs,
{
    cs.len() == 0 || (sns_wf(cs.drop_last()) && sn_wf(cs.last()))
}

pub open spec fn sn_wf(n: StyledNode) -> bool
    decreases n,
{
    n.specified_values.wf() && sns_wf(n.children@)
}

pub broadcast proof fn lemma_sns_wf_index(cs: Seq<StyledNode>, i: int)
    requires
        sns_wf(cs),
        0 <= i < cs.len(),
    ensures
        #[trigger] sn_wf(cs[i]),
    decreases cs,
{
    if i < cs.len() - 1 {
        lemma_sns_wf_index(cs.drop_last(), i);
    }
}

// ---------------------------------------------------------------------------
// Display classification
// ---------------------------------------------------------------------------

#[derive(Debug, PartialEq, Eq, Structural, Clone, Copy)]
pub enum Display {
    Inline,
    Block,
    DisplayNone,
}

/// Lookup chain: `name`, then `fallback`, then the default.
pub open spec fn lookup_of(
    m: Map<Seq<char>, ValueM>,
    name: Seq<char>,
    fallback: Seq<char>,
    default: ValueM,
) -> ValueM {
    if m.contains_key(name) {
        m[name]
    } else if m.contains_key(fallback) {
        m[fallback]
    } else {
        default
    }
}

/// Display classification of a property mapping: the `display` keyword
/// `block` or `none`, anything else or absent meaning inline.
pub open spec fn display_of(m: Map<Seq<char>, ValueM>) -> Display {
    if m.contains_key("display"@) {
        match m["display"@] {
            ValueM::Keyword(s) => if s == "block"@ {
                Display::Block
            } else if s == "none"@ {
                Display::DisplayNone
            } else {
                Display::Inline
            },
            _ => Display::Inline,
        }
    } else {
        Display::Inline
    }
}

pub open spec fn get_color_of(m: Map<Seq<char>, ValueM>, name: Seq<char>) -> Option<Color> {
    if m.contains_key(name) {
        match m[name] {
            ValueM::Color(c) => Option::Some(c),
            _ => Option::None,
        }
    } else {
        Option::None
    }
}

impl StyledNode {
    /// The resolved value of a property, if any.
    pub fn value(&self, name: &str) -> (r: Option<Value>)
        requires
            self.specified_values.wf(),
        ensures
            match r {
                Option::Some(v) => self@.specified_values.contains_key(name@)
                    && self@.specified_values[name@] == v@,
                Option::None => !self@.specified_values.contains_key(name@),
            },
    {
        match self.specified_values.get(name) {
            Option::Some(v) => Option::Some(v.duplicate()),
            Option::None => Option::None,
        }
    }

    /// The value of `name`, else of `fallback_name`, else the default.
    pub fn lookup(&self, name: &str, fallback_name: &str, default: &Value) -> (r: Value)
        requires
            self.specified_values.wf(),
        ensures
            r@ == lookup_of(self@.specified_values, name@, fallback_name@, default@),
    {
        match self.value(name) {
            Option::Some(v) => v,
            Option::None => match self.value(fallback_name) {
                Option::Some(v) => v,
                Option::None => default.duplicate(),
            },
        }
    }

    /// How this node participates in layout.
    pub fn display(&self) -> (r: Display)
        requires
            self.specified_values.wf(),
        ensures
            r == display_of(self@.specified_values),
    {
        match self.value("display") {
            Option::Some(Value::Keyword(s)) => {
                if str_eq(s.as_str(), "block") {
                    Display::Block
                } else if str_eq(s.as_str(), "none") {
                    Display::DisplayNone
                } else {
                    Display::Inline
                }
            },
            _ => Display::Inline,
        }
    }

    /// Whether the underlying document node is a text leaf.
    pub fn has_text_node(&self) -> (r: bool)
        ensures
            r == (self@.node_data is Text),
    {
        match self.node_data {
            NodeType::Text(_) => true,
            _ => false,
        }
    }

    /// The property's value when it is a color.
    pub fn get_color(&self, name: &str) -> (r: Option<Color>)
        requires
            self.specified_values.wf(),
        ensures
            r == get_color_of(self@.specified_values, name@),
    {
        match self.value(name) {
            Option::Some(Value::Color(color)) => Option::Some(color),
            _ => Option::None,
        }
    }
}

// ---------------------------------------------------------------------------
// Selector matching
// ---------------------------------------------------------------------------

/// A simple selector matches an element when its tag, id and every class
/// constraint hold of the element.
pub open spec fn match_simple_selector_of(e: ElementDataM, s: SimpleSelectorM) -> bool {
    &&& (s.tag_name matches Option::Some(t) ==> e.tag_name == t)
    &&& (s.id matches Option::Some(i) ==> e.id() == Option::Some(i))
    &&& (forall|k: int| 0 <= k < s.class.len() ==> e.classes().contains(#[trigger] s.class[k]))
}

pub open spec fn matches_of(e: ElementDataM, s: SelectorM) -> bool {
    match s {
        SelectorM::Simple(ss) => match_simple_selector_of(e, ss),
    }
}

fn vec_contains_str(v: &Vec<String>, c: &str) -> (r: bool)
    ensures
        r == crate::dom::tokens_str_view(v@).contains(c@),
{
    let mut j: usize = 0;
    while j < v.len()
        invariant
            j <= v.len(),
            forall|m: int| 0 <= m < j ==> v@[m]@ != c@,
        decreases v.len() - j,
    {
        if str_eq(v[j].as_str(), c) {
            proof {
                assert(crate::dom::tokens_str_view(v@)[j as int] == c@);
            }
            return true;
        }
        j = j + 1;
    }
    proof {
        assert forall|m: int| 0 <= m < crate::dom::tokens_str_view(v@).len()
            implies crate::dom::tokens_str_view(v@)[m] != c@ by {
            assert(crate::dom::tokens_str_view(v@)[m] == v@[m]@);
        }
    }
    false
}

pub fn match_simple_selector(elem: &ElementData, simple_selector: &SimpleSelector) -> (r: bool)
    ensures
        r == match_simple_selector_of(elem@, simple_selector@),
{
    if let Option::Some(ref t) = simple_selector.tag_name {
        if !str_eq(elem.tag_name.as_str(), t.as_str()) {
            return false;
        }
    }
    if let Option::Some(ref id) = simple_selector.id {
        match elem.id() {
            Option::Some(eid) => {
                if !str_eq(eid.as_str(), id.as_str()) {
                    return false;
                }
            },
            Option::None => {
                return false;
            },
        }
    }
    let classes = elem.classes();
    let mut k: usize = 0;
    while k < simple_selector.class.len()
        invariant
            k <= simple_selector.class.len(),
            crate::dom::tokens_str_view(classes@) == elem@.classes(),
            simple_selector@.class.len() == simple_selector.class.len(),
            forall|j: int| 0 <= j < simple_selector.class.len()
                ==> #[trigger] simple_selector@.class[j] == simple_selector.class@[j]@,
            forall|j: int| 0 <= j < k
                ==> elem@.classes().contains(#[trigger] simple_selector@.class[j]),
            simple_selector@.tag_name matches Option::Some(t) ==> elem@.tag_name == t,
            simple_selector@.id matches Option::Some(i) ==> elem@.id() == Option::Some(i),
        decreases simple_selector.class.len() - k,
    {
        if !vec_contains_str(&classes, simple_selector.class[k].as_str()) {
            proof {
                assert(!elem@.classes().contains(simple_selector@.class[k as int]));
            }
            return false;
        }
        k = k + 1;
    }
    true
}

pub fn matches(elem: &ElementData, selector: &Selector) -> (r: bool)
    ensures
        r == matches_of(elem@, selector@),
{
    match *selector {
        Selector::Simple(ref simple_selector) => match_simple_selector(elem, simple_selector),
    }
}

/// Specificity of the first selector of the rule that matches the element.
pub open spec fn find_match(e: ElementDataM, sels: Seq<SelectorM>) -> Option<(int, int, int)>
    decreases sels,
{
    if sels.len() == 0 {
        Option::None
    } else if matches_of(e, sels[0]) {
        Option::Some(sels[0].specificity())
    } else {
        find_match(e, sels.drop_first())
    }
}

/// On a selector list ranked by descending specificity --- the form the
/// stylesheet parser guarantees --- the first matching selector is a best
/// match: the rule's matched specificity is the maximum over its matching
/// selectors, and a match is found exactly when some selector matches.
pub proof fn lemma_find_match_best(e: ElementDataM, sels: Seq<SelectorM>)
    requires
        selectors_sorted_desc(sels),
    ensures
        (find_match(e, sels) is Some) <==> (exists|k: int|
            0 <= k < sels.len() && matches_of(e, #[trigger] sels[k])),
        find_match(e, sels) matches Option::Some(sp) ==> exists|k: int|
            0 <= k < sels.len() && matches_of(e, #[trigger] sels[k]) && sels[k].specificity()
                == sp,
        find_match(e, sels) matches Option::Some(sp) ==> forall|k: int|
            0 <= k < sels.len() && matches_of(e, #[trigger] sels[k]) ==> spec_lex_ge(
                sp,
                sels[k].specificity(),
            ),
    decreases sels,
{
    if sels.len() > 0 {
        if matches_of(e, sels[0]) {
            assert(find_match(e, sels) == Option::Some(sels[0].specificity()));
        } else {
            let tail = sels.drop_first();
            assert forall|i: int, j: int| 0 <= i < j < tail.len() implies spec_lex_ge(
                (#[trigger] tail[i]).specificity(),
                (#[trigger] tail[j]).specificity(),
            ) by {
                assert(tail[i] == sels[i + 1]);
                assert(tail[j] == sels[j + 1]);
            }
            lemma_find_match_best(e, tail);
            assert(find_match(e, sels) == find_match(e, tail));
            if find_match(e, sels) is Some {
                let sp = find_match(e, sels)->0;
                let k0 = choose|k: int|
                    0 <= k < tail.len() && matches_of(e, #[trigger] tail[k])
                        && tail[k].specificity() == sp;
                assert(tail[k0] == sels[k0 + 1]);
                assert(matches_of(e, sels[k0 + 1]) && sels[k0 + 1].specificity() == sp);
                assert forall|k: int|
                    0 <= k < sels.len() && matches_of(e, #[trigger] sels[k]) implies spec_lex_ge(
                    sp,
                    sels[k].specificity(),
                ) by {
                    if k > 0 {
                        assert(sels[k] == tail[k - 1]);
                    }
                }
            } else {
                assert forall|k: int| 0 <= k < sels.len() implies !matches_of(
                    e,
                    #[trigger] sels[k],
                ) by {
                    if k > 0 {
                        assert(sels[k] == tail[k - 1]);
                    }
                }
            }
            if exists|k: int| 0 <= k < sels.len() && matches_of(e, #[trigger] sels[k]) {
                let kw = choose|k: int| 0 <= k < sels.len() && matches_of(e, #[trigger] sels[k]);
                if kw > 0 {
                    assert(tail[kw - 1] == sels[kw]);
                }
            }
        }
    }
}

/// The rule together with its matched specificity, when some selector matches.
pub fn match_rule<'a>(elem: &ElementData, rule: &'a Rule) -> (r: Option<(Specificity, &'a Rule)>)
    ensures
        match r {
            Option::Some((sp, ru)) => {
                &&& find_match(elem@, rule@.selectors)
                    == Option::Some((sp.0 as int, sp.1 as int, sp.2 as int))
                &&& ru == rule
            },
            Option::None => find_match(elem@, rule@.selectors) is None,
        },
        selectors_sorted_desc(rule@.selectors) ==> ({
            &&& (r is Some) <==> exists|k: int|
                0 <= k < rule@.selectors.len() && matches_of(elem@, #[trigger] rule@.selectors[k])
            &&& r matches Option::Some((sp, _)) ==> forall|k: int|
                0 <= k < rule@.selectors.len() && matches_of(elem@, #[trigger] rule@.selectors[k])
                    ==> spec_lex_ge(
                    (sp.0 as int, sp.1 as int, sp.2 as int),
                    rule@.selectors[k].specificity(),
                )
        }),
{
    let ghost sels = rule@.selectors;
    proof {
        assert(sels.skip(0) =~= sels);
    }
    let mut i: usize = 0;
    while i < rule.selectors.len()
        invariant
            i <= rule.selectors.len(),
            sels == rule@.selectors,
            sels.len() == rule.selectors.len(),
            forall|j: int| 0 <= j < sels.len() ==> #[trigger] sels[j] == rule.selectors@[j]@,
            find_match(elem@, sels) == find_match(elem@, sels.skip(i as int)),
        decreases rule.selectors.len() - i,
    {
        proof {
            assert(sels.skip(i as int)[0] == sels[i as int]);
            assert(sels.skip(i as int).drop_first() =~= sels.skip(i as int + 1));
        }
        if matches(elem, &rule.selectors[i]) {
            let sp = rule.selectors[i].specificity();
            proof {
                if selectors_sorted_desc(rule@.selectors) {
                    lemma_find_match_best(elem@, rule@.selectors);
                }
            }
            return Option::Some((sp, rule));
        }
        i = i + 1;
    }
    proof {
        if selectors_sorted_desc(rule@.selectors) {
            lemma_find_match_best(elem@, rule@.selectors);
        }
    }
    Option::None
}

// ---------------------------------------------------------------------------
// The cascade
// ---------------------------------------------------------------------------

pub open spec fn sp_view(sp: Specificity) -> (int, int, int) {
    (sp.0 as int, sp.1 as int, sp.2 as int)
}

/// One matched rule's declarations applied in order: a declaration replaces a
/// stored one exactly when it ranks at least as high.
pub open spec fn apply_decls(
    m: Map<Seq<char>, ((int, int, int), ValueM)>,
    sp: (int, int, int),
    ds: Seq<DeclarationM>,
) -> Map<Seq<char>, ((int, int, int), ValueM)>
    decreases ds,
{
    if ds.len() == 0 {
        m
    } else {
        let m2 = apply_decls(m, sp, ds.drop_last());
        let d = ds.last();
        if !m2.contains_key(d.name) || spec_lex_ge(sp, m2[d.name].0) {
            m2.insert(d.name, (sp, d.value))
        } else {
            m2
        }
    }
}

/// The cascade over a rule list: rules in source order, each matched rule's
/// declarations applied with its matched specificity.
pub open spec fn cascade_rules(e: ElementDataM, rules: Seq<RuleM>) -> Map<
    Seq<char>,
    ((int, int, int), ValueM),
>
    decreases rules,
{
    if rules.len() == 0 {
        Map::empty()
    } else {
        let m = cascade_rules(e, rules.drop_last());
        match find_match(e, rules.last().selectors) {
            Option::None => m,
            Option::Some(sp) => apply_decls(m, sp, rules.last().declarations),
        }
    }
}

pub open spec fn strip_map(m: Map<Seq<char>, ((int, int, int), ValueM)>) -> Map<Seq<char>, ValueM> {
    Map::new(|k: Seq<char>| m.contains_key(k), |k: Seq<char>| m[k].1)
}

/// The resolved property mapping of an element under a rule list.
pub open spec fn specified_values_of(e: ElementDataM, rules: Seq<RuleM>) -> Map<Seq<char>, ValueM> {
    strip_map(cascade_rules(e, rules))
}

pub open spec fn trip_view(s: Seq<(String, Specificity, Value)>) -> Seq<
    (Seq<char>, (int, int, int), ValueM),
> {
    Seq::new(s.len(), |i: int| (s[i].0@, sp_view(s[i].1), s[i].2@))
}

pub open spec fn work_map(ts: Seq<(Seq<char>, (int, int, int), ValueM)>) -> Map<
    Seq<char>,
    ((int, int, int), ValueM),
>
    decreases ts,
{
    if ts.len() == 0 {
        Map::empty()
    } else {
        work_map(ts.drop_last()).insert(ts.last().0, (ts.last().1, ts.last().2))
    }
}

pub open spec fn unique_keys(ts: Seq<(Seq<char>, (int, int, int), ValueM)>) -> bool {
    forall|i: int, j: int| 0 <= i < j < ts.len() ==> ts[i].0 != ts[j].0
}

proof fn lemma_work_map_no_match(ts: Seq<(Seq<char>, (int, int, int), ValueM)>, name: Seq<char>)
    requires
        forall|j: int| 0 <= j < ts.len() ==> ts[j].0 != name,
    ensures
        !work_map(ts).contains_key(name),
    decreases ts,
{
    if ts.len() > 0 {
        lemma_work_map_no_match(ts.drop_last(), name);
    }
}

proof fn lemma_work_map_match(ts: Seq<(Seq<char>, (int, int, int), ValueM)>, i: int)
    requires
        unique_keys(ts),
        0 <= i < ts.len(),
    ensures
        work_map(ts).contains_key(ts[i].0),
        work_map(ts)[ts[i].0] == (ts[i].1, ts[i].2),
    decreases ts,
{
    if i < ts.len() - 1 {
        lemma_work_map_match(ts.drop_last(), i);
    }
}

proof fn lemma_work_map_remove(ts: Seq<(Seq<char>, (int, int, int), ValueM)>, j: int, n: Seq<char>)
    requires
        unique_keys(ts),
        0 <= j < ts.len(),
        n != ts[j].0,
    ensures
        work_map(ts.remove(j)).contains_key(n) == work_map(ts).contains_key(n),
        work_map(ts).contains_key(n) ==> work_map(ts.remove(j))[n] == work_map(ts)[n],
    decreases ts,
{
    if j == ts.len() - 1 {
        assert(ts.remove(j) =~= ts.drop_last());
    } else {
        assert(ts.remove(j).drop_last() =~= ts.drop_last().remove(j));
        assert(ts.remove(j).last() == ts.last());
        lemma_work_map_remove(ts.drop_last(), j, n);
    }
}

proof fn lemma_work_map_remove_push(
    ts: Seq<(Seq<char>, (int, int, int), ValueM)>,
    j: int,
    x: (Seq<char>, (int, int, int), ValueM),
)
    requires
        unique_keys(ts),
        0 <= j < ts.len(),
        x.0 == ts[j].0,
    ensures
        work_map(ts.remove(j).push(x)) =~= work_map(ts).insert(x.0, (x.1, x.2)),
{
    let w = ts.remove(j).push(x);
    assert(w.drop_last() =~= ts.remove(j));
    assert(work_map(w) =~= work_map(ts.remove(j)).insert(x.0, (x.1, x.2)));
    assert forall|n: Seq<char>| #[trigger] work_map(w).contains_key(n)
        == work_map(ts).insert(x.0, (x.1, x.2)).contains_key(n) && (work_map(w).contains_key(n)
        ==> work_map(w)[n] == work_map(ts).insert(x.0, (x.1, x.2))[n]) by {
        if n != x.0 {
            lemma_work_map_remove(ts, j, n);
        }
    }
}

pub open spec fn strip_ts(ts: Seq<(Seq<char>, (int, int, int), ValueM)>) -> Seq<DeclarationM> {
    Seq::new(ts.len(), |i: int| DeclarationM { name: ts[i].0, value: ts[i].2 })
}

proof fn lemma_strip(ts: Seq<(Seq<char>, (int, int, int), ValueM)>)
    ensures
        props_map(strip_ts(ts)) =~= strip_map(work_map(ts)),
    decreases ts,
{
    if ts.len() > 0 {
        assert(strip_ts(ts).drop_last() =~= strip_ts(ts.drop_last()));
        lemma_strip(ts.drop_last());
    }
}

fn find_name(work: &Vec<(String, Specificity, Value)>, name: &str) -> (r: Option<usize>)
    ensures
        match r {
            Option::Some(j) => j < work.len() && trip_view(work@)[j as int].0 == name@,
            Option::None => forall|m: int| 0 <= m < work.len()
                ==> (#[trigger] trip_view(work@)[m]).0 != name@,
        },
{
    let mut j: usize = 0;
    while j < work.len()
        invariant
            j <= work.len(),
            forall|m: int| 0 <= m < j ==> (#[trigger] trip_view(work@)[m]).0 != name@,
        decreases work.len() - j,
    {
        if str_eq(work[j].0.as_str(), name) {
            return Option::Some(j);
        }
        j = j + 1;
    }
    Option::None
}

/// Resolve the element's properties: collect every matching rule and let the
/// highest-ranked declaration of each property win, later rules breaking ties.
pub fn specified_values(elem: &ElementData, stylesheet: &Stylesheet) -> (r: PropertyMap)
    ensures
        r@ == specified_values_of(elem@, stylesheet@.rules),
        r.wf(),
{
    let ghost rv = stylesheet@.rules;
    let mut work: Vec<(String, Specificity, Value)> = Vec::new();
    let mut ri: usize = 0;
    while ri < stylesheet.rules.len()
        invariant
            ri <= stylesheet.rules.len(),
            rv == stylesheet@.rules,
            rv.len() == stylesheet.rules.len(),
            forall|j: int| 0 <= j < rv.len() ==> #[trigger] rv[j] == stylesheet.rules@[j]@,
            unique_keys(trip_view(work@)),
            work_map(trip_view(work@)) == cascade_rules(elem@, rv.take(ri as int)),
        decreases stylesheet.rules.len() - ri,
    {
        proof {
            assert(rv.take(ri as int + 1).drop_last() =~= rv.take(ri as int));
            assert(rv.take(ri as int + 1).last() == rv[ri as int]);
        }
        match match_rule(elem, &stylesheet.rules[ri]) {
            Option::None => {},
            Option::Some((sp, rule)) => {
                let ghost spm = sp_view(sp);
                let ghost base = cascade_rules(elem@, rv.take(ri as int));
                let ghost dsv = rule@.declarations;
                let mut di: usize = 0;
                while di < rule.declarations.len()
                    invariant
                        di <= rule.declarations.len(),
                        spm == sp_view(sp),
                        dsv == rule@.declarations,
                        dsv.len() == rule.declarations.len(),
                        forall|j: int| 0 <= j < dsv.len()
                            ==> #[trigger] dsv[j] == rule.declarations@[j]@,
                        unique_keys(trip_view(work@)),
                        work_map(trip_view(work@)) == apply_decls(base, spm, dsv.take(di as int)),
                    decreases rule.declarations.len() - di,
                {
                    proof {
                        assert(dsv.take(di as int + 1).drop_last() =~= dsv.take(di as int));
                        assert(dsv.take(di as int + 1).last() == dsv[di as int]);
                    }
                    let d = &rule.declarations[di];
                    let ghost tw = trip_view(work@);
                    match find_name(&work, d.name.as_str()) {
                        Option::None => {
                            proof {
                                lemma_work_map_no_match(tw, d@.name);
                            }
                            work.push((d.name.clone(), sp, d.value.duplicate()));
                            proof {
                                assert(trip_view(work@).drop_last() =~= tw);
                                assert(trip_view(work@).last() == (d@.name, spm, d@.value));
                                assert(trip_view(work@) =~= tw.push((d@.name, spm, d@.value)));
                            }
                        },
                        Option::Some(jj) => {
                            proof {
                                lemma_work_map_match(tw, jj as int);
                            }
                            let stored = work[jj].1;
                            proof {
                                assert(sp_view(stored) == tw[jj as int].1);
                            }
                            if lex_ge(sp, stored) {
                                work.remove(jj);
                                work.push((d.name.clone(), sp, d.value.duplicate()));
                                proof {
                                    let w2 = tw.remove(jj as int).push((d@.name, spm, d@.value));
                                    assert(trip_view(work@) =~= w2);
                                    lemma_work_map_remove_push(tw, jj as int,
                                        (d@.name, spm, d@.value));
                                    assert forall|a: int, b: int|
                                        0 <= a < b < w2.len()
                                        implies (#[trigger] w2[a]).0 != (#[trigger] w2[b]).0 by {
                                        if b < w2.len() - 1 {
                                            assert(w2[a] == if a < jj { tw[a] } else { tw[a + 1] });
                                            assert(w2[b] == if b < jj { tw[b] } else { tw[b + 1] });
                                        } else {
                                            assert(w2[b].0 == tw[jj as int].0);
                                            assert(w2[a] == if a < jj { tw[a] } else { tw[a + 1] });
                                        }
                                    }
                                    assert(unique_keys(trip_view(work@)));
                                }
                            }
                        },
                    }
                    di = di + 1;
                }
                proof {
                    assert(dsv.take(dsv.len() as int) =~= dsv);
                }
            },
        }
        ri = ri + 1;
    }
    proof {
        assert(rv.take(rv.len() as int) =~= rv);
    }
    let ghost tw_final = trip_view(work@);
    let mut entries: Vec<Declaration> = Vec::new();
    let mut i: usize = 0;
    while i < work.len()
        invariant
            i <= work.len(),
            tw_final == trip_view(work@),
            tw_final.len() == work.len(),
            entries@.len() == i,
            forall|j: int| 0 <= j < i ==> #[trigger] entries@[j]@ == (DeclarationM {
                name: tw_final[j].0,
                value: tw_final[j].2,
            }),
        decreases work.len() - i,
    {
        entries.push(Declaration { name: work[i].0.clone(), value: work[i].2.duplicate() });
        i = i + 1;
    }
    proof {
        assert(decls_view(entries@) =~= strip_ts(tw_final));
        lemma_strip(tw_final);
        assert(unique_names(strip_ts(tw_final)));
        assert(props_map(decls_view(entries@)) == props_map(strip_ts(tw_final)));
    }
    PropertyMap { entries }
}

// ---------------------------------------------------------------------------
// The styled tree
// ---------------------------------------------------------------------------

pub open spec fn spec_style_children(cs: Seq<NodeM>, rules: Seq<RuleM>) -> Seq<StyledNodeM>
    decreases cs,
{
    if cs.len() == 0 {
        Seq::empty()
    } else {
        spec_style_children(cs.drop_last(), rules).push(spec_style(cs.last(), rules))
    }
}

/// The styled tree of a document node: one styled node per document node, in
/// the same order, elements resolved through the cascade and text leaves empty.
pub open spec fn spec_style(n: NodeM, rules: Seq<RuleM>) -> StyledNodeM
    decreases n,
{
    StyledNodeM {
        node_data: n.data,
        specified_values: match n.data {
            NodeTypeM::Element(e) => specified_values_of(e, rules),
            NodeTypeM::Text(_) => Map::empty(),
        },
        children: spec_style_children(n.children, rules),
    }
}

fn clone_attrs(attrs: &crate::dom::AttrMap) -> (r: crate::dom::AttrMap)
    ensures
        r@ == attrs@,
{
    let mut r: crate::dom::AttrMap = Vec::new();
    let mut i: usize = 0;
    while i < attrs.len()
        invariant
            i <= attrs.len(),
            r@ =~= attrs@.take(i as int),
        decreases attrs.len() - i,
    {
        r.push((attrs[i].0.clone(), attrs[i].1.clone()));
        proof {
            assert(r@ =~= attrs@.take(i as int + 1));
        }
        i = i + 1;
    }
    proof {
        assert(attrs@.take(attrs@.len() as int) =~= attrs@);
    }
    r
}

fn clone_node_type(d: &NodeType) -> (r: NodeType)
    ensures
        r@ == d@,
{
    match d {
        NodeType::Element(e) => NodeType::Element(ElementData {
            tag_name: e.tag_name.clone(),
            attrs: clone_attrs(&e.attrs),
        }),
        NodeType::Text(s) => NodeType::Text(s.clone()),
    }
}

/// Build the styled tree for a document tree under a stylesheet.
pub fn style_tree(root: &Node, stylesheet: &Stylesheet) -> (r: StyledNode)
    ensures
        r@ == spec_style(root@, stylesheet@.rules),
        sn_wf(r),
    decreases *root,
{
    let specified = match &root.data {
        NodeType::Element(e) => specified_values(e, stylesheet),
        NodeType::Text(_) => PropertyMap::new(),
    };
    let ghost nv = nodes_view(root.children@);
    proof {
        crate::dom::lemma_nodes_view_len(root.children@);
    }
    let mut children: Vec<StyledNode> = Vec::new();
    let mut i: usize = 0;
    while i < root.children.len()
        invariant
            i <= root.children.len(),
            nv == nodes_view(root.children@),
            nv.len() == root.children.len(),
            styled_nodes_view(children@) == spec_style_children(nv.take(i as int), stylesheet@.rules),
            sns_wf(children@),
            children@.len() == i,
        decreases root.children.len() - i,
    {
        proof {
            crate::dom::lemma_nodes_view_index(root.children@, i as int);
        }
        let ghost old_children = children@;
        let c = style_tree(&root.children[i], stylesheet);
        children.push(c);
        proof {
            assert(children@.drop_last() =~= old_children);
            assert(children@.last() == c);
            assert(styled_nodes_view(children@) == styled_nodes_view(old_children).push(
                styled_node_view(c)));
            assert(nv.take(i as int + 1).drop_last() =~= nv.take(i as int));
            assert(nv.take(i as int + 1).last() == nv[i as int]);
            assert(spec_style_children(nv.take(i as int + 1), stylesheet@.rules)
                == spec_style_children(nv.take(i as int), stylesheet@.rules).push(
                spec_style(nv[i as int], stylesheet@.rules)));
        }
        i = i + 1;
    }
    proof {
        assert(nv.take(nv.len() as int) =~= nv);
    }
    StyledNode { node_data: clone_node_type(&root.data), specified_values: specified, children }
}

} // verus!
