//! Stylesheet data model: rules, selectors, declarations and values.
//!
//! Lengths are integer pixel counts; the only supported unit is `Px`.
use vstd::prelude::*;
use vstd::multiset::Multiset;
use crate::strutil::chars_to_string;

verus! {

#[derive(Clone, Copy, Debug, PartialEq, Eq, Structural)]
pub enum Unit {
    Px,
}

#[derive(Clone, Copy, Debug, PartialEq, Eq, Structural)]
pub struct Color {
    pub r: u8,
    pub b: u8,
    pub g: u8,
    pub a: u8,
}

#[derive(Debug, PartialEq, Clone)]
pub enum Value {
    Keyword(String),
    Length(i64, Unit),
    Color(Color),
}

#[derive(Debug, PartialEq, Clone)]
pub struct Declaration {
    pub name: String,
    pub value: Value,
}

#[derive(Debug, PartialEq, Clone)]
pub struct SimpleSelector {
    pub tag_name: Option<String>,
    pub id: Option<String>,
    pub class: Vec<String>,
}

#[derive(Debug, PartialEq, Clone)]
pub enum Selector {
    Simple(SimpleSelector),
}

#[derive(Debug, PartialEq, Clone)]
pub struct Rule {
    pub selectors: Vec<Selector>,
    pub declarations: Vec<Declaration>,
}

#[derive(Debug, PartialEq, Clone)]
pub struct Stylesheet {
    pub rules: Vec<Rule>,
}

pub type Specificity = (usize, usize, usize);

// ---------------------------------------------------------------------------
// Mathematical models
// ---------------------------------------------------------------------------

pub ghost enum ValueM {
    Keyword(Seq<char>),
    Length(int, Unit),
    Color(Color),
}

pub ghost struct DeclarationM {
    pub name: Seq<char>,
    pub value: ValueM,
}

pub ghost struct SimpleSelectorM {
    pub tag_name: Option<Seq<char>>,
    pub id: Option<Seq<char>>,
    pub class: Seq<Seq<char>>,
}

pub ghost enum SelectorM {
    Simple(SimpleSelectorM),
}

pub ghost struct RuleM {
    pub selectors: Seq<SelectorM>,
    pub declarations: Seq<DeclarationM>,
}

pub ghost struct StylesheetM {
    pub rules: Seq<RuleM>,
}

impl View for Value {
    type V = ValueM;

    open spec fn view(&self) -> ValueM {
        match self {
            Value::Keyword(s) => ValueM::Keyword(s@),
            Value::Length(px, u) => ValueM::Length(*px as int, *u),
            Value::Color(c) => ValueM::Color(*c),
        }
    }
}

impl View for Declaration {
    type V = DeclarationM;

    open spec fn view(&self) -> DeclarationM {
        DeclarationM { name: self.name@, value: self.value@ }
    }
}

impl View for SimpleSelector {
    type V = SimpleSelectorM;

    open spec fn view(&self) -> SimpleSelectorM {
        SimpleSelectorM {
            tag_name: match self.tag_name {
                Option::Some(t) => Option::Some(t@),
                Option::None => Option::None,
            },
            id: match self.id {
                Option::Some(i) => Option::Some(i@),
                Option::None => Option::None,
            },
            class: Seq::new(self.class@.len(), |i: int| self.class@[i]@),
        }
    }
}

impl View for Selector {
    type V = SelectorM;

    open spec fn view(&self) -> SelectorM {
        match self {
            Selector::Simple(s) => SelectorM::Simple(s@),
        }
    }
}

impl View for Rule {
    type V = RuleM;

    open spec fn view(&self) -> RuleM {
        RuleM {
            selectors: Seq::new(self.selectors@.len(), |i: int| self.selectors@[i]@),
            declarations: Seq::new(self.declarations@.len(), |i: int| self.declarations@[i]@),
        }
    }
}

impl View for Stylesheet {
    type V = StylesheetM;

    open spec fn view(&self) -> StylesheetM {
        StylesheetM { rules: Seq::new(self.rules@.len(), |i: int| self.rules@[i]@) }
    }
}

// ---------------------------------------------------------------------------
// Values
// ---------------------------------------------------------------------------

impl ValueM {
    /// Pixel count of a value: the magnitude of a `Px` length, 0 for anything else.
    pub open spec fn to_px(self) -> int {
        match self {
            ValueM::Length(px, Unit::Px) => px,
            _ => 0,
        }
    }

    /// The keyword value `auto`.
    pub open spec fn is_auto(self) -> bool {
        self matches ValueM::Keyword(s) && s == "auto"@
    }
}

impl Value {
    pub fn to_px(&self) -> (r: i64)
        ensures
            r == self@.to_px(),
    {
        match *self {
            Value::Length(f, Unit::Px) => f,
            _ => 0,
        }
    }

    /// A copy of this value, equal to the original.
    pub fn duplicate(&self) -> (r: Value)
        ensures
            r == *self,
    {
        match self {
            Value::Keyword(s) => Value::Keyword(s.clone()),
            Value::Length(f, u) => Value::Length(*f, *u),
            Value::Color(c) => Value::Color(*c),
        }
    }
}

// ---------------------------------------------------------------------------
// Specificity
// ---------------------------------------------------------------------------

impl SimpleSelectorM {
    /// Specificity of a selector: id matches, then class matches, then tag matches.
    pub open spec fn specificity(self) -> (int, int, int) {
        (
            if self.id is Some { 1int } else { 0int },
            self.class.len() as int,
            if self.tag_name is Some { 1int } else { 0int },
        )
    }
}

impl SelectorM {
    pub open spec fn specificity(self) -> (int, int, int) {
        match self {
            SelectorM::Simple(s) => s.specificity(),
        }
    }
}

/// Lexicographic order on specificity triples: `a` ranks at least as high as `b`.
pub open spec fn spec_lex_ge(a: (int, int, int), b: (int, int, int)) -> bool {
    if a.0 != b.0 {
        a.0 > b.0
    } else if a.1 != b.1 {
        a.1 > b.1
    } else {
        a.2 >= b.2
    }
}

impl Selector {
    pub fn specificity(&self) -> (r: Specificity)
        ensures
            (r.0 as int, r.1 as int, r.2 as int) == self@.specificity(),
    {
        let Selector::Simple(ref selector) = *self;
        let a: usize = if selector.id.is_some() {
            1
        } else {
            0
        };
        let b: usize = selector.class.len();
        let c: usize = if selector.tag_name.is_some() {
            1
        } else {
            0
        };
        (a, b, c)
    }
}

/// `a` ranks at least as high as `b` in the cascade ordering.
pub fn lex_ge(a: Specificity, b: Specificity) -> (r: bool)
    ensures
        r == spec_lex_ge(
            (a.0 as int, a.1 as int, a.2 as int),
            (b.0 as int, b.1 as int, b.2 as int),
        ),
{
    if a.0 != b.0 {
        a.0 > b.0
    } else if a.1 != b.1 {
        a.1 > b.1
    } else {
        a.2 >= b.2
    }
}

// ---------------------------------------------------------------------------
// Stylesheet text parsing
// ---------------------------------------------------------------------------

/// A point in the source where parsing could not continue.
#[derive(Debug, Clone, Copy, PartialEq, Eq, Structural)]
pub struct ParseError {
    pub position: usize,
}

pub open spec fn is_ident_char(c: char) -> bool {
    ||| 'a' <= c <= 'z'
    ||| 'A' <= c <= 'Z'
    ||| '0' <= c <= '9'
    ||| c == '-'
    ||| c == '_'
}

fn selector_char(c: char) -> (r: bool)
    ensures
        r == (c == '#' || c == '.' || c == '*' || is_ident_char(c)),
{
    c == '#' || c == '.' || c == '*' || valid_ident_char(c)
}

fn valid_ident_char(c: char) -> (r: bool)
    ensures
        r == is_ident_char(c),
{
    ('a' <= c && c <= 'z') || ('A' <= c && c <= 'Z') || ('0' <= c && c <= '9') || c == '-'
        || c == '_'
}

pub open spec fn is_space_char(c: char) -> bool {
    c == ' ' || c == '\t' || c == '\n' || c == '\r'
}

pub(crate) fn space_char(c: char) -> (r: bool)
    ensures
        r == is_space_char(c),
{
    c == ' ' || c == '\t' || c == '\n' || c == '\r'
}

pub open spec fn is_digit_char(c: char) -> bool {
    '0' <= c <= '9'
}

/// Length of the run of decimal digits at the front of `s`.
pub open spec fn spec_digit_run_len(s: Seq<char>) -> nat
    decreases s.len(),
{
    if s.len() > 0 && is_digit_char(s[0]) {
        1 + spec_digit_run_len(s.drop_first())
    } else {
        0
    }
}

/// Decimal value of a sequence of digits.
pub open spec fn spec_digits_val(ds: Seq<char>) -> int
    decreases ds,
{
    if ds.len() == 0 {
        0
    } else {
        spec_digits_val(ds.drop_last()) * 10 + (ds.last() as u32 - '0' as u32)
    }
}

/// The pixel count written by the digit run starting at `i`.
pub open spec fn spec_length_at(s: Seq<char>, i: int) -> int {
    spec_digits_val(s.subrange(i, i + spec_digit_run_len(s.skip(i))))
}

/// Position just past the digit run at `i` and any fractional digits.
pub open spec fn spec_number_end(s: Seq<char>, i: int) -> int {
    let d = i + spec_digit_run_len(s.skip(i));
    if d < s.len() && s[d] == '.' {
        d + 1 + spec_digit_run_len(s.skip(d + 1))
    } else {
        d
    }
}

/// Position just past the value written at `i`, by its leading character.
pub open spec fn spec_value_end(s: Seq<char>, i: int) -> int {
    if is_digit_char(s[i]) {
        spec_number_end(s, i) + 2
    } else if s[i] == '#' {
        i + 7
    } else {
        i + spec_ident_run_len(s.skip(i))
    }
}

/// Length of the run of identifier characters at the front of `s`.
pub open spec fn spec_ident_run_len(s: Seq<char>) -> nat
    decreases s.len(),
{
    if s.len() > 0 && is_ident_char(s[0]) {
        1 + spec_ident_run_len(s.drop_first())
    } else {
        0
    }
}

/// The identifier written at position `i`.
pub open spec fn spec_ident_at(s: Seq<char>, i: int) -> Seq<char> {
    s.subrange(i, i + spec_ident_run_len(s.skip(i)))
}

pub open spec fn is_hex_digit_char(c: char) -> bool {
    ||| '0' <= c <= '9'
    ||| 'a' <= c <= 'f'
    ||| 'A' <= c <= 'F'
}

/// Value of one hexadecimal digit.
pub open spec fn spec_hex_val(c: char) -> int {
    if '0' <= c <= '9' {
        c as u32 - '0' as u32
    } else if 'a' <= c <= 'f' {
        c as u32 - 'a' as u32 + 10
    } else {
        c as u32 - 'A' as u32 + 10
    }
}

/// Value of the two hexadecimal digits at positions `i` and `i + 1`.
pub open spec fn spec_hex_pair_at(s: Seq<char>, i: int) -> int {
    16 * spec_hex_val(s[i]) + spec_hex_val(s[i + 1])
}

pub open spec fn hex_pair_ok(s: Seq<char>, i: int) -> bool {
    i + 1 < s.len() && is_hex_digit_char(s[i]) && is_hex_digit_char(s[i + 1])
}

/// The unit token `px`, in any letter case.
pub open spec fn px_unit_at(s: Seq<char>, i: int) -> bool {
    i + 1 < s.len() && (s[i] == 'p' || s[i] == 'P') && (s[i + 1] == 'x' || s[i + 1] == 'X')
}

/// The value written at `i`, by its leading character: a pixel length, a
/// color, or a keyword.
pub open spec fn spec_value_of(s: Seq<char>, i: int) -> ValueM {
    if is_digit_char(s[i]) {
        ValueM::Length(spec_length_at(s, i), Unit::Px)
    } else if s[i] == '#' {
        ValueM::Color(
            Color {
                r: spec_hex_pair_at(s, i + 1) as u8,
                g: spec_hex_pair_at(s, i + 3) as u8,
                b: spec_hex_pair_at(s, i + 5) as u8,
                a: 255,
            },
        )
    } else {
        ValueM::Keyword(spec_ident_at(s, i))
    }
}

pub open spec fn declarations_view(s: Seq<Declaration>) -> Seq<DeclarationM> {
    Seq::new(s.len(), |i: int| s[i]@)
}

/// The declaration written at `i`: its name, and its value past the colon.
pub open spec fn spec_declaration_of(s: Seq<char>, i: int) -> DeclarationM {
    let p1 = i + spec_ident_run_len(s.skip(i)) + spec_ws_run_len(
        s.skip(i + spec_ident_run_len(s.skip(i))),
    );
    let p2 = p1 + 1 + spec_ws_run_len(s.skip(p1 + 1));
    DeclarationM { name: spec_ident_at(s, i), value: spec_value_of(s, p2) }
}

/// Position just past the declaration written at `i`, its semicolon included.
pub open spec fn spec_declaration_end(s: Seq<char>, i: int) -> int {
    let p1 = i + spec_ident_run_len(s.skip(i)) + spec_ws_run_len(
        s.skip(i + spec_ident_run_len(s.skip(i))),
    );
    let p2 = p1 + 1 + spec_ws_run_len(s.skip(p1 + 1));
    let p3 = spec_value_end(s, p2);
    p3 + spec_ws_run_len(s.skip(p3)) + 1
}

pub open spec fn empty_simple_selector() -> SimpleSelectorM {
    SimpleSelectorM { tag_name: Option::None, id: Option::None, class: Seq::empty() }
}

/// The simple selector written at `i`: a run of `#id`, `.class`, `*` and
/// tag-name parts, accumulated onto `acc`, together with the position of the
/// first character past the selector.
pub open spec fn spec_simple_selector(s: Seq<char>, i: int, acc: SimpleSelectorM) -> (
    SimpleSelectorM,
    int,
)
    decreases s.len() - i,
    via spec_simple_selector_decreases
{
    if 0 <= i < s.len() {
        let c = s[i];
        if c == '#' {
            spec_simple_selector(
                s,
                i + 1 + spec_ident_run_len(s.skip(i + 1)),
                SimpleSelectorM {
                    tag_name: acc.tag_name,
                    id: Option::Some(spec_ident_at(s, i + 1)),
                    class: acc.class,
                },
            )
        } else if c == '.' {
            spec_simple_selector(
                s,
                i + 1 + spec_ident_run_len(s.skip(i + 1)),
                SimpleSelectorM {
                    tag_name: acc.tag_name,
                    id: acc.id,
                    class: acc.class.push(spec_ident_at(s, i + 1)),
                },
            )
        } else if c == '*' {
            spec_simple_selector(s, i + 1, acc)
        } else if is_ident_char(c) {
            spec_simple_selector(
                s,
                i + 1 + spec_ident_run_len(s.skip(i + 1)),
                SimpleSelectorM {
                    tag_name: Option::Some(spec_ident_at(s, i)),
                    id: acc.id,
                    class: acc.class,
                },
            )
        } else {
            (acc, i)
        }
    } else {
        (acc, i)
    }
}

/// Length of the run of whitespace at the front of `s`.
pub open spec fn spec_ws_run_len(s: Seq<char>) -> nat
    decreases s.len(),
{
    if s.len() > 0 && is_space_char(s[0]) {
        1 + spec_ws_run_len(s.drop_first())
    } else {
        0
    }
}

proof fn lemma_ws_run_le(t: Seq<char>)
    ensures
        spec_ws_run_len(t) <= t.len(),
    decreases t.len(),
{
    if t.len() > 0 && is_space_char(t[0]) {
        lemma_ws_run_le(t.drop_first());
    }
}

proof fn lemma_simple_selector_pos(s: Seq<char>, i: int, acc: SimpleSelectorM)
    requires
        0 <= i <= s.len(),
    ensures
        i <= spec_simple_selector(s, i, acc).1 <= s.len(),
    decreases s.len() - i,
{
    if 0 <= i < s.len() {
        let c = s[i];
        if c == '#' || c == '.' || is_ident_char(c) {
            lemma_ident_run_le(s.skip(i + 1));
            let i2 = i + 1 + spec_ident_run_len(s.skip(i + 1));
            if c == '#' {
                lemma_simple_selector_pos(s, i2, SimpleSelectorM {
                    tag_name: acc.tag_name,
                    id: Option::Some(spec_ident_at(s, i + 1)),
                    class: acc.class,
                });
            } else if c == '.' {
                lemma_simple_selector_pos(s, i2, SimpleSelectorM {
                    tag_name: acc.tag_name,
                    id: acc.id,
                    class: acc.class.push(spec_ident_at(s, i + 1)),
                });
            } else {
                lemma_simple_selector_pos(s, i2, SimpleSelectorM {
                    tag_name: Option::Some(spec_ident_at(s, i)),
                    id: acc.id,
                    class: acc.class,
                });
            }
        } else if c == '*' {
            lemma_simple_selector_pos(s, i + 1, acc);
        }
    }
}

/// The comma-separated selector list written at `i`, in source order, with
/// the position reached and whether a `{` properly ends the list.
pub open spec fn spec_selector_list(s: Seq<char>, i: int) -> (Seq<SelectorM>, int, bool)
    decreases s.len() - i,
    via spec_selector_list_decreases
{
    if 0 <= i <= s.len() {
        let ss = spec_simple_selector(s, i, empty_simple_selector());
        let p1 = ss.1 + spec_ws_run_len(s.skip(ss.1));
        if p1 < s.len() && s[p1] == ',' {
            let p2 = p1 + 1 + spec_ws_run_len(s.skip(p1 + 1));
            let rest = spec_selector_list(s, p2);
            (seq![SelectorM::Simple(ss.0)] + rest.0, rest.1, rest.2)
        } else if p1 < s.len() && s[p1] == '{' {
            (seq![SelectorM::Simple(ss.0)], p1, true)
        } else {
            (seq![SelectorM::Simple(ss.0)], p1, false)
        }
    } else {
        (Seq::empty(), i, false)
    }
}

#[via_fn]
proof fn spec_selector_list_decreases(s: Seq<char>, i: int) {
    if 0 <= i <= s.len() {
        lemma_simple_selector_pos(s, i, empty_simple_selector());
        let ss = spec_simple_selector(s, i, empty_simple_selector());
        lemma_ws_run_le(s.skip(ss.1));
        let p1 = ss.1 + spec_ws_run_len(s.skip(ss.1));
        if p1 < s.len() && s[p1] == ',' {
            lemma_ws_run_le(s.skip(p1 + 1));
        }
    }
}

proof fn lemma_ident_run_le(t: Seq<char>)
    ensures
        spec_ident_run_len(t) <= t.len(),
    decreases t.len(),
{
    if t.len() > 0 && is_ident_char(t[0]) {
        lemma_ident_run_le(t.drop_first());
    }
}

#[via_fn]
proof fn spec_simple_selector_decreases(s: Seq<char>, i: int, acc: SimpleSelectorM) {
    if 0 <= i < s.len() {
        lemma_ident_run_le(s.skip(i + 1));
    }
}

/// The declaration block's entries written from `i`, just past the `{`, up
/// to the closing `}`, with the position reached and whether the block is
/// properly closed.
pub open spec fn spec_declaration_list(s: Seq<char>, i: int) -> (Seq<DeclarationM>, int, bool)
    decreases s.len() - i,
    via spec_declaration_list_decreases
{
    if 0 <= i <= s.len() {
        let p1 = i + spec_ws_run_len(s.skip(i));
        if p1 < s.len() && s[p1] == '}' {
            (Seq::empty(), p1 + 1, true)
        } else if p1 < s.len() {
            let e = spec_declaration_end(s, p1);
            let e2 = if p1 + 1 <= e <= s.len() {
                e
            } else {
                p1 + 1
            };
            let rest = spec_declaration_list(s, e2);
            (seq![spec_declaration_of(s, p1)] + rest.0, rest.1, rest.2)
        } else {
            (Seq::empty(), p1, false)
        }
    } else {
        (Seq::empty(), i, false)
    }
}

#[via_fn]
proof fn spec_declaration_list_decreases(s: Seq<char>, i: int) {
    if 0 <= i <= s.len() {
        lemma_ws_run_le(s.skip(i));
    }
}

pub open spec fn rules_view(s: Seq<Rule>) -> Seq<RuleM> {
    Seq::new(s.len(), |i: int| s[i]@)
}

/// The rule written at `i`: its selector list ranked by specificity, and its
/// declaration block.
pub open spec fn spec_rule_of(s: Seq<char>, i: int) -> RuleM {
    let sl = spec_selector_list(s, i);
    RuleM {
        selectors: spec_sort_selectors(sl.0),
        declarations: spec_declaration_list(s, sl.1 + 1).0,
    }
}

/// Whether the rule written at `i` is properly formed through its `}`.
pub open spec fn spec_rule_ok(s: Seq<char>, i: int) -> bool {
    spec_selector_list(s, i).2 && spec_declaration_list(s, spec_selector_list(s, i).1 + 1).2
}

/// Position just past the rule written at `i`.
pub open spec fn spec_rule_end(s: Seq<char>, i: int) -> int {
    spec_declaration_list(s, spec_selector_list(s, i).1 + 1).1
}

/// Every rule of the source from `i` to its end, in order, with whether all
/// of them are properly formed.
pub open spec fn spec_rules(s: Seq<char>, i: int) -> (Seq<RuleM>, bool)
    decreases s.len() - i,
    via spec_rules_decreases
{
    if 0 <= i <= s.len() {
        let p1 = i + spec_ws_run_len(s.skip(i));
        if p1 >= s.len() {
            (Seq::empty(), true)
        } else {
            let e = spec_rule_end(s, p1);
            let e2 = if p1 + 1 <= e <= s.len() {
                e
            } else {
                p1 + 1
            };
            let rest = spec_rules(s, e2);
            (seq![spec_rule_of(s, p1)] + rest.0, spec_rule_ok(s, p1) && rest.1)
        }
    } else {
        (Seq::empty(), false)
    }
}

#[via_fn]
proof fn spec_rules_decreases(s: Seq<char>, i: int) {
    if 0 <= i <= s.len() {
        lemma_ws_run_le(s.skip(i));
    }
}

struct Parser {
    pos: usize,
    input: Vec<char>,
}

impl Parser {
    spec fn wf(self) -> bool {
        self.pos <= self.input@.len()
    }

    fn eof(&self) -> (r: bool)
        requires
            self.wf(),
        ensures
            r == (self.pos == self.input@.len()),
    {
        self.pos >= self.input.len()
    }

    fn next_char(&self) -> (r: char)
        requires
            self.pos < self.input@.len(),
        ensures
            r == self.input@[self.pos as int],
    {
        self.input[self.pos]
    }

    fn consume_char(&mut self) -> (r: char)
        requires
            old(self).pos < old(self).input@.len(),
        ensures
            final(self).input == old(self).input,
            final(self).pos == old(self).pos + 1,
            r == old(self).input@[old(self).pos as int],
    {
        // binding the length here bounds the view length by the usize range
        let n = self.input.len();
        let c = self.input[self.pos];
        self.pos = self.pos + 1;
        proof {
            assert(self.pos <= n);
        }
        c
    }

    fn consume_whitespace(&mut self)
        requires
            old(self).wf(),
        ensures
            final(self).input == old(self).input,
            old(self).pos <= final(self).pos,
            final(self).wf(),
            final(self).pos == old(self).pos + spec_ws_run_len(
                old(self).input@.skip(old(self).pos as int),
            ),
    {
        let ghost sv = self.input@;
        let ghost p0 = self.pos as int;
        while self.pos < self.input.len() && space_char(self.input[self.pos])
            invariant
                self.input == old(self).input,
                sv == self.input@,
                p0 == old(self).pos as int,
                old(self).pos <= self.pos <= self.input@.len(),
                spec_ws_run_len(sv.skip(p0)) == (self.pos - p0) + spec_ws_run_len(
                    sv.skip(self.pos as int),
                ),
            decreases self.input@.len() - self.pos,
        {
            proof {
                assert(sv.skip(self.pos as int)[0] == sv[self.pos as int]);
                assert(sv.skip(self.pos as int).drop_first() =~= sv.skip(self.pos as int + 1));
            }
            self.pos = self.pos + 1;
        }
        proof {
            if self.pos < self.input.len() {
                assert(sv.skip(self.pos as int)[0] == sv[self.pos as int]);
            }
            assert(spec_ws_run_len(sv.skip(self.pos as int)) == 0);
        }
    }

    fn parse_identifier(&mut self) -> (r: String)
        requires
            old(self).wf(),
        ensures
            final(self).input == old(self).input,
            old(self).pos <= final(self).pos,
            final(self).wf(),
            final(self).pos == old(self).pos + spec_ident_run_len(
                old(self).input@.skip(old(self).pos as int),
            ),
            r@ == spec_ident_at(old(self).input@, old(self).pos as int),
            old(self).pos < old(self).input@.len() && is_ident_char(
                old(self).input@[old(self).pos as int],
            ) ==> old(self).pos < final(self).pos,
    {
        let ghost p0 = self.pos as int;
        let ghost sv = self.input@;
        let mut chars: Vec<char> = Vec::new();
        while self.pos < self.input.len() && valid_ident_char(self.input[self.pos])
            invariant
                self.input == old(self).input,
                sv == self.input@,
                p0 == old(self).pos as int,
                old(self).pos <= self.pos <= self.input@.len(),
                chars@ == sv.subrange(p0, self.pos as int),
                spec_ident_run_len(sv.skip(p0)) == (self.pos - p0) + spec_ident_run_len(
                    sv.skip(self.pos as int),
                ),
            decreases self.input@.len() - self.pos,
        {
            proof {
                assert(sv.skip(self.pos as int)[0] == sv[self.pos as int]);
                assert(sv.skip(self.pos as int).drop_first() =~= sv.skip(self.pos as int + 1));
            }
            chars.push(self.input[self.pos]);
            self.pos = self.pos + 1;
            proof {
                assert(chars@ =~= sv.subrange(p0, self.pos as int));
            }
        }
        proof {
            if self.pos < self.input.len() {
                assert(sv.skip(self.pos as int)[0] == sv[self.pos as int]);
            }
            assert(spec_ident_run_len(sv.skip(self.pos as int)) == 0);
            assert(chars@ =~= spec_ident_at(sv, p0));
        }
        chars_to_string(&chars)
    }

    fn parse_simple_selector(&mut self) -> (r: SimpleSelector)
        requires
            old(self).wf(),
        ensures
            final(self).input == old(self).input,
            old(self).pos <= final(self).pos,
            final(self).wf(),
            ({
                let sp = spec_simple_selector(
                    old(self).input@,
                    old(self).pos as int,
                    empty_simple_selector(),
                );
                r@ == sp.0 && final(self).pos as int == sp.1
            }),
    {
        let ghost sv = self.input@;
        let ghost p0 = self.pos as int;
        let mut selector = SimpleSelector { tag_name: Option::None, id: Option::None, class: Vec::new() };
        proof {
            assert(selector@.class =~= Seq::<Seq<char>>::empty());
            assert(selector@ == empty_simple_selector());
        }
        while self.pos < self.input.len() && selector_char(self.input[self.pos])
            invariant
                self.input == old(self).input,
                sv == self.input@,
                p0 == old(self).pos as int,
                old(self).pos <= self.pos <= self.input@.len(),
                spec_simple_selector(sv, p0, empty_simple_selector()) == spec_simple_selector(
                    sv,
                    self.pos as int,
                    selector@,
                ),
            decreases self.input@.len() - self.pos,
        {
            let ghost pos_here = self.pos as int;
            let ghost acc_here = selector@;
            let c = self.input[self.pos];
            if c == '#' {
                self.consume_char();
                let id = self.parse_identifier();
                selector.id = Option::Some(id);
                proof {
                    assert(selector@ == (SimpleSelectorM {
                        tag_name: acc_here.tag_name,
                        id: Option::Some(spec_ident_at(sv, pos_here + 1)),
                        class: acc_here.class,
                    }));
                }
            } else if c == '.' {
                self.consume_char();
                let cls = self.parse_identifier();
                selector.class.push(cls);
                proof {
                    assert(selector@.class =~= acc_here.class.push(
                        spec_ident_at(sv, pos_here + 1)));
                    assert(selector@ == (SimpleSelectorM {
                        tag_name: acc_here.tag_name,
                        id: acc_here.id,
                        class: acc_here.class.push(spec_ident_at(sv, pos_here + 1)),
                    }));
                }
            } else if c == '*' {
                self.consume_char();
            } else {
                let tag = self.parse_identifier();
                selector.tag_name = Option::Some(tag);
                proof {
                    assert(sv.skip(pos_here)[0] == sv[pos_here]);
                    assert(sv.skip(pos_here).drop_first() =~= sv.skip(pos_here + 1));
                    assert(spec_ident_run_len(sv.skip(pos_here)) == 1 + spec_ident_run_len(
                        sv.skip(pos_here + 1)));
                    assert(selector@ == (SimpleSelectorM {
                        tag_name: Option::Some(spec_ident_at(sv, pos_here)),
                        id: acc_here.id,
                        class: acc_here.class,
                    }));
                }
            }
        }
        proof {
            assert(spec_simple_selector(sv, self.pos as int, selector@) == (
                selector@,
                self.pos as int,
            ));
        }
        selector
    }

    /// The rule's selector list: comma-separated simple selectors up to the
    /// `{`, handed back ranked by descending specificity.
    fn parse_selectors(&mut self) -> (r: Result<Vec<Selector>, ParseError>)
        requires
            old(self).wf(),
        ensures
            final(self).input == old(self).input,
            old(self).pos <= final(self).pos,
            final(self).wf(),
            r matches Result::Ok(sels) ==> selectors_sorted_desc(selectors_view(sels@)),
            r matches Result::Ok(sels) ==> ({
                let pl = spec_selector_list(old(self).input@, old(self).pos as int);
                &&& pl.2
                &&& selectors_view(sels@) == spec_sort_selectors(pl.0)
                &&& final(self).pos as int == pl.1
            }),
    {
        let ghost sv = self.input@;
        let ghost p0 = self.pos as int;
        let mut selectors: Vec<Selector> = Vec::new();
        proof {
            assert(selectors_view(selectors@) =~= Seq::<SelectorM>::empty());
            assert(selectors_view(selectors@) + spec_selector_list(sv, p0).0 =~=
                spec_selector_list(sv, p0).0);
        }
        loop
            invariant_except_break
                spec_selector_list(sv, p0).0 == selectors_view(selectors@)
                    + spec_selector_list(sv, self.pos as int).0,
                spec_selector_list(sv, p0).1 == spec_selector_list(sv, self.pos as int).1,
                spec_selector_list(sv, p0).2 == spec_selector_list(sv, self.pos as int).2,
            invariant
                self.input == old(self).input,
                sv == self.input@,
                p0 == old(self).pos as int,
                old(self).pos <= self.pos <= self.input@.len(),
            ensures
                spec_selector_list(sv, p0).2,
                spec_selector_list(sv, p0).0 == selectors_view(selectors@),
                spec_selector_list(sv, p0).1 == self.pos as int,
                self.input == old(self).input,
                sv == self.input@,
                p0 == old(self).pos as int,
                old(self).pos <= self.pos <= self.input@.len(),
            decreases self.input@.len() - self.pos,
        {
            let ghost ph = self.pos as int;
            let ghost pre = selectors_view(selectors@);
            let sel = self.parse_simple_selector();
            let ghost ss = spec_simple_selector(sv, ph, empty_simple_selector());
            selectors.push(Selector::Simple(sel));
            proof {
                assert(selectors_view(selectors@) =~= pre.push(SelectorM::Simple(ss.0)));
            }
            self.consume_whitespace();
            if self.eof() {
                return Result::Err(ParseError { position: self.pos });
            }
            let c = self.next_char();
            if c == ',' {
                self.consume_char();
                self.consume_whitespace();
                proof {
                    assert(spec_selector_list(sv, ph).0 =~= seq![SelectorM::Simple(ss.0)]
                        + spec_selector_list(sv, self.pos as int).0);
                    assert(pre + (seq![SelectorM::Simple(ss.0)] + spec_selector_list(
                        sv,
                        self.pos as int,
                    ).0) =~= selectors_view(selectors@) + spec_selector_list(
                        sv,
                        self.pos as int,
                    ).0);
                }
            } else if c == '{' {
                proof {
                    assert(spec_selector_list(sv, ph) == (
                        seq![SelectorM::Simple(ss.0)],
                        self.pos as int,
                        true,
                    ));
                    assert(pre + seq![SelectorM::Simple(ss.0)] =~= selectors_view(selectors@));
                }
                break;
            } else {
                return Result::Err(ParseError { position: self.pos });
            }
        }
        let sorted = sort_selectors(selectors);
        Result::Ok(sorted)
    }

    /// The declaration block: `{`, declarations, `}`, in source order.
    fn parse_declarations(&mut self) -> (r: Result<Vec<Declaration>, ParseError>)
        requires
            old(self).wf(),
        ensures
            final(self).input == old(self).input,
            old(self).pos <= final(self).pos,
            final(self).wf(),
            r is Ok ==> old(self).pos < final(self).pos,
            r matches Result::Ok(ds) ==> ({
                let s = old(self).input@;
                let i = old(self).pos as int;
                let dl = spec_declaration_list(s, i + 1);
                &&& i < s.len() && s[i] == '{'
                &&& dl.2
                &&& declarations_view(ds@) == dl.0
                &&& final(self).pos as int == dl.1
            }),
    {
        if self.eof() || self.next_char() != '{' {
            return Result::Err(ParseError { position: self.pos });
        }
        self.consume_char();
        let ghost sv = self.input@;
        let ghost q0 = self.pos as int;
        let mut declarations: Vec<Declaration> = Vec::new();
        proof {
            assert(declarations_view(declarations@) =~= Seq::<DeclarationM>::empty());
            assert(declarations_view(declarations@) + spec_declaration_list(sv, q0).0 =~=
                spec_declaration_list(sv, q0).0);
        }
        loop
            invariant_except_break
                spec_declaration_list(sv, q0).0 == declarations_view(declarations@)
                    + spec_declaration_list(sv, self.pos as int).0,
                spec_declaration_list(sv, q0).1 == spec_declaration_list(sv, self.pos as int).1,
                spec_declaration_list(sv, q0).2 == spec_declaration_list(sv, self.pos as int).2,
            invariant
                self.input == old(self).input,
                sv == self.input@,
                q0 == old(self).pos + 1,
                old(self).pos < self.pos <= self.input@.len(),
            ensures
                spec_declaration_list(sv, q0).2,
                spec_declaration_list(sv, q0).0 == declarations_view(declarations@),
                spec_declaration_list(sv, q0).1 == self.pos as int,
                self.input == old(self).input,
                old(self).pos < self.pos <= self.input@.len(),
            decreases self.input@.len() - self.pos,
        {
            let ghost posh = self.pos as int;
            self.consume_whitespace();
            let ghost p1 = self.pos as int;
            if self.eof() {
                return Result::Err(ParseError { position: self.pos });
            }
            if self.next_char() == '}' {
                self.consume_char();
                proof {
                    assert(spec_declaration_list(sv, posh) == (
                        Seq::<DeclarationM>::empty(),
                        p1 + 1,
                        true,
                    ));
                    assert(declarations_view(declarations@) + Seq::<DeclarationM>::empty() =~=
                        declarations_view(declarations@));
                }
                break;
            }
            let ghost pre = declarations_view(declarations@);
            match self.parse_declaration() {
                Result::Ok(d) => {
                    let ghost dm = d@;
                    declarations.push(d);
                    proof {
                        assert(declarations_view(declarations@) =~= pre.push(dm));
                        assert(dm == spec_declaration_of(sv, p1));
                        assert(p1 + 1 <= self.pos as int <= sv.len());
                        assert(spec_declaration_list(sv, posh).0 =~= seq![dm]
                            + spec_declaration_list(sv, self.pos as int).0);
                        assert(pre + (seq![dm] + spec_declaration_list(sv, self.pos as int).0)
                            =~= declarations_view(declarations@) + spec_declaration_list(
                            sv,
                            self.pos as int,
                        ).0);
                    }
                },
                Result::Err(e) => {
                    return Result::Err(e);
                },
            }
        }
        Result::Ok(declarations)
    }

    /// One declaration: the property name, a colon, a value, a semicolon.
    fn parse_declaration(&mut self) -> (r: Result<Declaration, ParseError>)
        requires
            old(self).wf(),
        ensures
            final(self).input == old(self).input,
            old(self).pos <= final(self).pos,
            final(self).wf(),
            r is Ok ==> old(self).pos < final(self).pos,
            r matches Result::Ok(d) ==> d@ == spec_declaration_of(
                old(self).input@,
                old(self).pos as int,
            ) && final(self).pos as int == spec_declaration_end(
                old(self).input@,
                old(self).pos as int,
            ),
    {
        let ghost sv = self.input@;
        let ghost p0 = self.pos as int;
        let name = self.parse_identifier();
        self.consume_whitespace();
        let ghost p1 = self.pos as int;
        if self.eof() || self.next_char() != ':' {
            return Result::Err(ParseError { position: self.pos });
        }
        self.consume_char();
        self.consume_whitespace();
        let ghost p2 = self.pos as int;
        let value = match self.parse_value() {
            Result::Ok(v) => v,
            Result::Err(e) => {
                return Result::Err(e);
            },
        };
        let ghost p3 = self.pos as int;
        self.consume_whitespace();
        let ghost p4 = self.pos as int;
        if self.eof() || self.next_char() != ';' {
            return Result::Err(ParseError { position: self.pos });
        }
        self.consume_char();
        proof {
            assert(p1 == p0 + spec_ident_run_len(sv.skip(p0)) + spec_ws_run_len(
                sv.skip(p0 + spec_ident_run_len(sv.skip(p0)))));
            assert(p2 == p1 + 1 + spec_ws_run_len(sv.skip(p1 + 1)));
            assert(p3 == spec_value_end(sv, p2));
            assert(p4 == p3 + spec_ws_run_len(sv.skip(p3)));
            assert(self.pos as int == spec_declaration_end(sv, p0));
            assert(name@ == spec_ident_at(sv, p0));
            assert(value@ == spec_value_of(sv, p2));
        }
        Result::Ok(Declaration { name: name, value: value })
    }

    /// A value, dispatched on the first character: a digit starts a length,
    /// `#` a color, anything else a keyword.
    fn parse_value(&mut self) -> (r: Result<Value, ParseError>)
        requires
            old(self).wf(),
        ensures
            final(self).input == old(self).input,
            old(self).pos <= final(self).pos,
            final(self).wf(),
            r matches Result::Ok(v) ==> ({
                let s = old(self).input@;
                let i = old(self).pos as int;
                &&& i < s.len()
                &&& v@ == spec_value_of(s, i)
                &&& final(self).pos as int == spec_value_end(s, i)
            }),
    {
        if self.eof() {
            return Result::Err(ParseError { position: self.pos });
        }
        let c = self.next_char();
        if '0' <= c && c <= '9' {
            self.parse_length()
        } else if c == '#' {
            self.parse_color()
        } else {
            Result::Ok(Value::Keyword(self.parse_identifier()))
        }
    }

    /// A pixel count: the digit run's decimal value, any fractional digits
    /// read and dropped, then the unit token.
    fn parse_length(&mut self) -> (r: Result<Value, ParseError>)
        requires
            old(self).wf(),
        ensures
            final(self).input == old(self).input,
            old(self).pos <= final(self).pos,
            final(self).wf(),
            r matches Result::Ok(v) ==> ({
                &&& v matches Value::Length(_, _)
                &&& v->Length_0 as int == spec_length_at(old(self).input@, old(self).pos as int)
                &&& v->Length_0 >= 0
                &&& v->Length_1 == Unit::Px
                &&& final(self).pos as int == spec_number_end(
                    old(self).input@,
                    old(self).pos as int,
                ) + 2
            }),
    {
        let ghost p0 = self.pos as int;
        let ghost sv = self.input@;
        let mut val: i64 = 0;
        let mut any = false;
        while self.pos < self.input.len() && '0' <= self.input[self.pos] && self.input[self.pos]
            <= '9'
            invariant
                self.input == old(self).input,
                sv == self.input@,
                p0 == old(self).pos as int,
                old(self).pos <= self.pos <= self.input@.len(),
                0 <= val <= 0x7fffffffffffff,
                val as int == spec_digits_val(sv.subrange(p0, self.pos as int)),
                spec_digit_run_len(sv.skip(p0)) == (self.pos - p0) + spec_digit_run_len(
                    sv.skip(self.pos as int),
                ),
            decreases self.input@.len() - self.pos,
        {
            proof {
                assert(sv.skip(self.pos as int)[0] == sv[self.pos as int]);
                assert(sv.skip(self.pos as int).drop_first() =~= sv.skip(self.pos as int + 1));
            }
            let d = (self.input[self.pos] as u32) - ('0' as u32);
            if val > 0xffffffffffff {
                return Result::Err(ParseError { position: self.pos });
            }
            val = val * 10 + (d as i64);
            any = true;
            self.pos = self.pos + 1;
            proof {
                assert(sv.subrange(p0, self.pos as int).drop_last() =~= sv.subrange(
                    p0,
                    self.pos as int - 1,
                ));
                assert(sv.subrange(p0, self.pos as int).last() == sv[self.pos as int - 1]);
            }
        }
        proof {
            if self.pos < self.input.len() {
                assert(sv.skip(self.pos as int)[0] == sv[self.pos as int]);
            }
            assert(spec_digit_run_len(sv.skip(self.pos as int)) == 0);
            assert(sv.subrange(p0, self.pos as int) =~= sv.subrange(
                p0,
                p0 + spec_digit_run_len(sv.skip(p0)),
            ));
            assert(val as int == spec_length_at(sv, p0));
        }
        if !any {
            return Result::Err(ParseError { position: self.pos });
        }
        let ghost pd = self.pos as int;
        if self.pos < self.input.len() && self.input[self.pos] == '.' {
            self.consume_char();
            let ghost pf = self.pos as int;
            while self.pos < self.input.len() && '0' <= self.input[self.pos]
                && self.input[self.pos] <= '9'
                invariant
                    self.input == old(self).input,
                    sv == self.input@,
                    pf == pd + 1,
                    old(self).pos <= self.pos <= self.input@.len(),
                    pf <= self.pos as int,
                    spec_digit_run_len(sv.skip(pf)) == (self.pos - pf) + spec_digit_run_len(
                        sv.skip(self.pos as int),
                    ),
                decreases self.input@.len() - self.pos,
            {
                proof {
                    assert(sv.skip(self.pos as int)[0] == sv[self.pos as int]);
                    assert(sv.skip(self.pos as int).drop_first() =~= sv.skip(
                        self.pos as int + 1));
                }
                self.pos = self.pos + 1;
            }
            proof {
                if self.pos < self.input.len() {
                    assert(sv.skip(self.pos as int)[0] == sv[self.pos as int]);
                }
                assert(spec_digit_run_len(sv.skip(self.pos as int)) == 0);
                assert(self.pos as int == spec_number_end(sv, p0));
            }
        } else {
            proof {
                assert(self.pos as int == spec_number_end(sv, p0));
            }
        }
        match self.parse_unit() {
            Result::Ok(u) => Result::Ok(Value::Length(val, u)),
            Result::Err(e) => Result::Err(e),
        }
    }

    /// Accepts exactly the two-character unit token `px`, case-insensitively.
    fn parse_unit(&mut self) -> (r: Result<Unit, ParseError>)
        requires
            old(self).wf(),
        ensures
            final(self).input == old(self).input,
            old(self).pos <= final(self).pos,
            final(self).wf(),
            (r is Ok) == px_unit_at(old(self).input@, old(self).pos as int),
            r matches Result::Ok(u) ==> u == Unit::Px && final(self).pos == old(self).pos + 2,
            r is Err ==> final(self).pos == old(self).pos,
    {
        let here = self.pos;
        let n = self.input.len();
        if self.pos < n && self.pos + 1 < n {
            let c0 = self.input[self.pos];
            let c1 = self.input[self.pos + 1];
            if (c0 == 'p' || c0 == 'P') && (c1 == 'x' || c1 == 'X') {
                self.pos = self.pos + 2;
                return Result::Ok(Unit::Px);
            }
        }
        Result::Err(ParseError { position: here })
    }

    /// Reads exactly two hexadecimal digits as one byte.
    fn parse_hex_pair(&mut self) -> (r: Result<u8, ParseError>)
        requires
            old(self).wf(),
        ensures
            final(self).input == old(self).input,
            old(self).pos <= final(self).pos,
            final(self).wf(),
            (r is Ok) == hex_pair_ok(old(self).input@, old(self).pos as int),
            r matches Result::Ok(b) ==> b as int == spec_hex_pair_at(
                old(self).input@,
                old(self).pos as int,
            ) && final(self).pos == old(self).pos + 2,
            r is Err ==> final(self).pos == old(self).pos,
    {
        let n = self.input.len();
        if self.pos >= n {
            return Result::Err(ParseError { position: self.pos });
        }
        if self.pos + 1 >= n {
            return Result::Err(ParseError { position: self.pos });
        }
        let h = match hex_digit(self.input[self.pos]) {
            Option::Some(v) => v,
            Option::None => {
                return Result::Err(ParseError { position: self.pos });
            },
        };
        let l = match hex_digit(self.input[self.pos + 1]) {
            Option::Some(v) => v,
            Option::None => {
                return Result::Err(ParseError { position: self.pos });
            },
        };
        self.pos = self.pos + 2;
        Result::Ok(h * 16 + l)
    }

    /// `#` and three hex pairs: red, green, blue, with alpha fixed opaque.
    fn parse_color(&mut self) -> (r: Result<Value, ParseError>)
        requires
            old(self).wf(),
        ensures
            final(self).input == old(self).input,
            old(self).pos <= final(self).pos,
            final(self).wf(),
            r matches Result::Ok(v) ==> ({
                let s = old(self).input@;
                let i = old(self).pos as int;
                &&& i < s.len() && s[i] == '#'
                &&& v matches Value::Color(c)
                &&& v->Color_0.r as int == spec_hex_pair_at(s, i + 1)
                &&& v->Color_0.g as int == spec_hex_pair_at(s, i + 3)
                &&& v->Color_0.b as int == spec_hex_pair_at(s, i + 5)
                &&& v->Color_0.a == 255
                &&& hex_pair_ok(s, i + 1) && hex_pair_ok(s, i + 3) && hex_pair_ok(s, i + 5)
                &&& final(self).pos == old(self).pos + 7
            }),
    {
        if self.eof() || self.next_char() != '#' {
            return Result::Err(ParseError { position: self.pos });
        }
        self.consume_char();
        let red = match self.parse_hex_pair() {
            Result::Ok(v) => v,
            Result::Err(e) => {
                return Result::Err(e);
            },
        };
        let green = match self.parse_hex_pair() {
            Result::Ok(v) => v,
            Result::Err(e) => {
                return Result::Err(e);
            },
        };
        let blue = match self.parse_hex_pair() {
            Result::Ok(v) => v,
            Result::Err(e) => {
                return Result::Err(e);
            },
        };
        Result::Ok(Value::Color(Color { r: red, g: green, b: blue, a: 255 }))
    }

    /// One rule: a selector list, then a declaration block.
    fn parse_rule(&mut self) -> (r: Result<Rule, ParseError>)
        requires
            old(self).wf(),
        ensures
            final(self).input == old(self).input,
            old(self).pos <= final(self).pos,
            final(self).wf(),
            r is Ok ==> old(self).pos < final(self).pos,
            r matches Result::Ok(rule) ==> ({
                let s = old(self).input@;
                let i = old(self).pos as int;
                &&& spec_rule_ok(s, i)
                &&& rule@ == spec_rule_of(s, i)
                &&& final(self).pos as int == spec_rule_end(s, i)
            }),
    {
        let ghost sv = self.input@;
        let ghost p0 = self.pos as int;
        let selectors = match self.parse_selectors() {
            Result::Ok(s) => s,
            Result::Err(e) => {
                return Result::Err(e);
            },
        };
        let declarations = match self.parse_declarations() {
            Result::Ok(d) => d,
            Result::Err(e) => {
                return Result::Err(e);
            },
        };
        let r = Rule { selectors: selectors, declarations: declarations };
        proof {
            let sl = spec_selector_list(sv, p0);
            assert(r@.selectors =~= selectors_view(selectors@));
            assert(r@.declarations =~= declarations_view(declarations@));
            assert(r@ == spec_rule_of(sv, p0));
        }
        Result::Ok(r)
    }

    /// Every rule of the source, in order.
    fn parse_rules(&mut self) -> (r: Result<Vec<Rule>, ParseError>)
        requires
            old(self).wf(),
        ensures
            final(self).wf(),
            r matches Result::Ok(rules) ==> ({
                let rl = spec_rules(old(self).input@, old(self).pos as int);
                &&& rl.1
                &&& rules_view(rules@) == rl.0
            }),
    {
        let ghost sv = self.input@;
        let ghost p0 = self.pos as int;
        let mut rules: Vec<Rule> = Vec::new();
        proof {
            assert(rules_view(rules@) =~= Seq::<RuleM>::empty());
            assert(rules_view(rules@) + spec_rules(sv, p0).0 =~= spec_rules(sv, p0).0);
        }
        loop
            invariant_except_break
                spec_rules(sv, p0).0 == rules_view(rules@) + spec_rules(sv, self.pos as int).0,
                spec_rules(sv, p0).1 == spec_rules(sv, self.pos as int).1,
            invariant
                self.input == old(self).input,
                sv == self.input@,
                p0 == old(self).pos as int,
                old(self).pos <= self.pos <= self.input@.len(),
            ensures
                spec_rules(sv, p0).1,
                spec_rules(sv, p0).0 == rules_view(rules@),
            decreases self.input@.len() - self.pos,
        {
            let ghost posh = self.pos as int;
            self.consume_whitespace();
            let ghost p1 = self.pos as int;
            if self.eof() {
                proof {
                    assert(spec_rules(sv, posh) == (Seq::<RuleM>::empty(), true));
                    assert(rules_view(rules@) + Seq::<RuleM>::empty() =~= rules_view(rules@));
                }
                break;
            }
            let ghost pre = rules_view(rules@);
            match self.parse_rule() {
                Result::Ok(rule) => {
                    let ghost rm = rule@;
                    rules.push(rule);
                    proof {
                        assert(rules_view(rules@) =~= pre.push(rm));
                        assert(rm == spec_rule_of(sv, p1));
                        assert(p1 + 1 <= self.pos as int <= sv.len());
                        assert(spec_rules(sv, posh).0 =~= seq![rm] + spec_rules(
                            sv,
                            self.pos as int,
                        ).0);
                        assert(pre + (seq![rm] + spec_rules(sv, self.pos as int).0) =~=
                            rules_view(rules@) + spec_rules(sv, self.pos as int).0);
                    }
                },
                Result::Err(e) => {
                    return Result::Err(e);
                },
            }
        }
        Result::Ok(rules)
    }
}

fn hex_digit(c: char) -> (r: Option<u8>)
    ensures
        r is Some <==> is_hex_digit_char(c),
        r matches Option::Some(v) ==> v as int == spec_hex_val(c) && v < 16,
{
    let u = c as u32;
    if '0' as u32 <= u && u <= '9' as u32 {
        Option::Some((u - '0' as u32) as u8)
    } else if 'a' as u32 <= u && u <= 'f' as u32 {
        Option::Some((u - 'a' as u32 + 10) as u8)
    } else if 'A' as u32 <= u && u <= 'F' as u32 {
        Option::Some((u - 'A' as u32 + 10) as u8)
    } else {
        Option::None
    }
}

pub open spec fn selectors_view(s: Seq<Selector>) -> Seq<SelectorM> {
    Seq::new(s.len(), |i: int| s[i]@)
}

/// Ranked high to low: every earlier selector ranks at least as high as every
/// later one.
pub open spec fn selectors_sorted_desc(s: Seq<SelectorM>) -> bool {
    forall|i: int, j: int|
        0 <= i < j < s.len() ==> spec_lex_ge(
            (#[trigger] s[i]).specificity(),
            (#[trigger] s[j]).specificity(),
        )
}

/// A selector placed behind every already-ranked selector that ranks at
/// least as high: insertion keeps equal ranks in arrival order.
pub open spec fn spec_insert_selector(sorted: Seq<SelectorM>, s: SelectorM) -> Seq<SelectorM>
    decreases sorted,
{
    if sorted.len() == 0 {
        seq![s]
    } else if spec_lex_ge(sorted[0].specificity(), s.specificity()) {
        seq![sorted[0]] + spec_insert_selector(sorted.drop_first(), s)
    } else {
        seq![s] + sorted
    }
}

/// Stable insertion sort of a selector list by descending specificity.
pub open spec fn spec_sort_selectors(v: Seq<SelectorM>) -> Seq<SelectorM>
    decreases v,
{
    if v.len() == 0 {
        Seq::empty()
    } else {
        spec_insert_selector(spec_sort_selectors(v.drop_last()), v.last())
    }
}

proof fn lemma_insert_selector(sorted: Seq<SelectorM>, s: SelectorM)
    requires
        selectors_sorted_desc(sorted),
    ensures
        selectors_sorted_desc(spec_insert_selector(sorted, s)),
        spec_insert_selector(sorted, s).to_multiset() =~= sorted.to_multiset().insert(s),
        spec_insert_selector(sorted, s).len() == sorted.len() + 1,
        spec_insert_selector(sorted, s)[0] == s || (sorted.len() > 0 && spec_insert_selector(
            sorted,
            s,
        )[0] == sorted[0]),
    decreases sorted,
{
    broadcast use vstd::seq_lib::group_to_multiset_ensures;
    broadcast use vstd::multiset::group_multiset_axioms;

    let r = spec_insert_selector(sorted, s);
    if sorted.len() == 0 {
        assert(seq![s] =~= Seq::<SelectorM>::empty().push(s));
        assert(Seq::<SelectorM>::empty().to_multiset() =~= Multiset::<SelectorM>::empty());
        assert(r.to_multiset() =~= sorted.to_multiset().insert(s));
    } else if spec_lex_ge(sorted[0].specificity(), s.specificity()) {
        let tail = sorted.drop_first();
        assert forall|i: int, j: int| 0 <= i < j < tail.len() implies spec_lex_ge(
            (#[trigger] tail[i]).specificity(),
            (#[trigger] tail[j]).specificity(),
        ) by {
            assert(tail[i] == sorted[i + 1]);
            assert(tail[j] == sorted[j + 1]);
        }
        lemma_insert_selector(tail, s);
        let rest = spec_insert_selector(tail, s);
        assert forall|i: int, j: int| 0 <= i < j < r.len() implies spec_lex_ge(
            (#[trigger] r[i]).specificity(),
            (#[trigger] r[j]).specificity(),
        ) by {
            if i == 0 {
                assert(r[0] == sorted[0]);
                assert(r[j] == rest[j - 1]);
                if j - 1 == 0 {
                    if tail.len() > 0 {
                        assert(rest[0] == s || rest[0] == tail[0]);
                        assert(tail[0] == sorted[1]);
                    }
                } else {
                    assert(spec_lex_ge(rest[0].specificity(), rest[j - 1].specificity()));
                    if tail.len() > 0 {
                        assert(rest[0] == s || rest[0] == tail[0]);
                        assert(tail[0] == sorted[1]);
                    }
                }
            } else {
                assert(r[i] == rest[i - 1]);
                assert(r[j] == rest[j - 1]);
            }
        }
        vstd::seq_lib::lemma_multiset_commutative(seq![sorted[0]], rest);
        assert(seq![sorted[0]] =~= Seq::<SelectorM>::empty().push(sorted[0]));
        assert(Seq::<SelectorM>::empty().to_multiset() =~= Multiset::<SelectorM>::empty());
        assert(sorted =~= seq![sorted[0]] + tail);
        vstd::seq_lib::lemma_multiset_commutative(seq![sorted[0]], tail);
        assert(r.to_multiset() =~= sorted.to_multiset().insert(s));
    } else {
        assert forall|i: int, j: int| 0 <= i < j < r.len() implies spec_lex_ge(
            (#[trigger] r[i]).specificity(),
            (#[trigger] r[j]).specificity(),
        ) by {
            if i == 0 {
                assert(r[0] == s);
                assert(r[j] == sorted[j - 1]);
                assert(spec_lex_ge(s.specificity(), sorted[0].specificity()));
                if j - 1 > 0 {
                    assert(spec_lex_ge(sorted[0].specificity(), sorted[j - 1].specificity()));
                }
            } else {
                assert(r[i] == sorted[i - 1]);
                assert(r[j] == sorted[j - 1]);
            }
        }
        vstd::seq_lib::lemma_multiset_commutative(seq![s], sorted);
        assert(seq![s] =~= Seq::<SelectorM>::empty().push(s));
        assert(Seq::<SelectorM>::empty().to_multiset() =~= Multiset::<SelectorM>::empty());
        assert(r.to_multiset() =~= sorted.to_multiset().insert(s));
    }
}

proof fn lemma_sort_selectors_spec(v: Seq<SelectorM>)
    ensures
        selectors_sorted_desc(spec_sort_selectors(v)),
        spec_sort_selectors(v).to_multiset() =~= v.to_multiset(),
        spec_sort_selectors(v).len() == v.len(),
    decreases v,
{
    broadcast use vstd::seq_lib::group_to_multiset_ensures;
    broadcast use vstd::multiset::group_multiset_axioms;

    if v.len() > 0 {
        lemma_sort_selectors_spec(v.drop_last());
        lemma_insert_selector(spec_sort_selectors(v.drop_last()), v.last());
        assert(v =~= v.drop_last().push(v.last()));
    }
}

/// Selectors in descending specificity: a stable permutation of the input,
/// equal ranks keeping their order.
fn sort_selectors(v: Vec<Selector>) -> (r: Vec<Selector>)
    ensures
        selectors_view(r@) == spec_sort_selectors(selectors_view(v@)),
        selectors_sorted_desc(selectors_view(r@)),
        selectors_view(r@).to_multiset() == selectors_view(v@).to_multiset(),
        r@.len() == v@.len(),
{
    let ghost ov = selectors_view(v@);
    let ghost ovex = v@;
    let mut rem = v;
    let mut sorted: Vec<Selector> = Vec::new();
    let ghost mut n: int = 0;
    proof {
        assert(rem@ =~= ovex.skip(0));
        assert(ov.take(0) =~= Seq::<SelectorM>::empty());
        assert(selectors_view(sorted@) =~= spec_sort_selectors(ov.take(0)));
    }
    while rem.len() > 0
        invariant
            0 <= n <= ovex.len(),
            ov == selectors_view(ovex),
            ov.len() == ovex.len(),
            rem@ == ovex.skip(n),
            sorted@.len() == n,
            selectors_view(sorted@) == spec_sort_selectors(ov.take(n)),
        decreases rem@.len(),
    {
        proof {
            assert(ovex.skip(n)[0] == ovex[n]);
            assert(ovex.skip(n).drop_first() =~= ovex.skip(n + 1));
            assert(ov.take(n + 1).drop_last() =~= ov.take(n));
            assert(ov.take(n + 1).last() == ov[n]);
        }
        let sel = rem.remove(0);
        let sp = sel.specificity();
        let ghost sv = selectors_view(sorted@);
        let ghost sm = sel@;
        proof {
            assert(sm == ov[n]);
            assert(sv.skip(0) =~= sv);
            assert(spec_insert_selector(sv, sm) =~= sv.take(0) + spec_insert_selector(
                sv.skip(0),
                sm,
            ));
        }
        let mut k: usize = 0;
        while k < sorted.len() && lex_ge(sorted[k].specificity(), sp)
            invariant
                k <= sorted@.len(),
                sv == selectors_view(sorted@),
                sv.len() == sorted@.len(),
                sm == sel@,
                sp.0 as int == sm.specificity().0,
                sp.1 as int == sm.specificity().1,
                sp.2 as int == sm.specificity().2,
                spec_insert_selector(sv, sm) == sv.take(k as int) + spec_insert_selector(
                    sv.skip(k as int),
                    sm,
                ),
            decreases sorted@.len() - k,
        {
            proof {
                assert(sv.skip(k as int)[0] == sv[k as int]);
                assert(sv.skip(k as int).drop_first() =~= sv.skip(k as int + 1));
                assert(sv.take(k as int) + (seq![sv[k as int]] + spec_insert_selector(
                    sv.skip(k as int + 1),
                    sm,
                )) =~= sv.take(k as int + 1) + spec_insert_selector(sv.skip(k as int + 1), sm));
            }
            k = k + 1;
        }
        proof {
            if k < sorted@.len() {
                assert(sv.skip(k as int)[0] == sv[k as int]);
                assert(spec_insert_selector(sv.skip(k as int), sm) =~= seq![sm] + sv.skip(
                    k as int,
                ));
            } else {
                assert(sv.skip(k as int) =~= Seq::<SelectorM>::empty());
                assert(spec_insert_selector(sv.skip(k as int), sm) =~= seq![sm]);
            }
        }
        sorted.insert(k, sel);
        proof {
            assert(sorted@ =~= sorted@.subrange(0, k as int) + seq![sel] + sorted@.subrange(
                k as int + 1,
                sorted@.len() as int,
            ));
            assert(selectors_view(sorted@) =~= sv.take(k as int) + (seq![sm] + sv.skip(
                k as int,
            )));
            assert(selectors_view(sorted@) =~= spec_insert_selector(sv, sm));
            n = n + 1;
        }
    }
    proof {
        assert(ov.take(n) =~= ov);
        lemma_sort_selectors_spec(ov);
    }
    sorted
}

fn str_to_chars(s: &str) -> (r: Vec<char>)
    ensures
        r@ == s@,
{
    let n = s.unicode_len();
    let mut r: Vec<char> = Vec::new();
    let mut i: usize = 0;
    while i < n
        invariant
            i <= n,
            n == s@.len(),
            r@ == s@.take(i as int),
        decreases n - i,
    {
        let c = s.get_char(i);
        r.push(c);
        proof {
            assert(r@ =~= s@.take(i as int + 1));
        }
        i = i + 1;
    }
    proof {
        assert(s@.take(n as int) =~= s@);
    }
    r
}

/// Parse stylesheet text: every rule of the source in order, each a
/// specificity-ranked selector list and a declaration block. Malformed text
/// is reported, never accepted.
pub fn parse(source: String) -> (r: Result<Stylesheet, ParseError>)
    ensures
        r matches Result::Ok(sheet) ==> ({
            let rl = spec_rules(source@, 0);
            &&& rl.1
            &&& sheet@.rules == rl.0
        }),
{
    let mut parser = Parser { pos: 0, input: str_to_chars(source.as_str()) };
    match parser.parse_rules() {
        Result::Ok(rules) => {
            let sheet = Stylesheet { rules: rules };
            proof {
                assert(sheet@.rules =~= rules_view(sheet.rules@));
            }
            Result::Ok(sheet)
        },
        Result::Err(e) => Result::Err(e),
    }
}

} // verus!
