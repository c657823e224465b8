//! The stylesheet parser: a recursive-descent parser that turns style text
//! into a `StyleSheet` — rules in source order, each rule's selector list
//! sorted descending by specificity, declarations in source order.
//!
//! As with the markup parser, every executable production is specified
//! against a mathematical mirror (`sp_rule`, `sp_value`, ...) that pins the
//! exact result, end position, and error for every input.
//!
//! The grammar is minimal on purpose: identifiers are ASCII letters, digits
//! and hyphens; lengths are decimal literals with the sole unit `px`;
//! colors are `#RRGGBB` with six hexadecimal digits; there are no at-rules,
//! combinators, comments, or other units.

use vstd::prelude::*;

use crate::ParseError;
use crate::cursor::Cursor;
use crate::cursor::lemma_scan_end;
use crate::cursor::lemma_ws_end;
use crate::cursor::scan_end;
use crate::cursor::str_eq;
use crate::cursor::ws_end;
use crate::style::DeclarationView;
use crate::style::NumberView;
use crate::style::RuleView;
use crate::style::SelectorView;
use crate::style::SimpleSelectorView;
use crate::style::Unit;
use crate::style::Color;
use crate::style::ValueView;
use crate::style::Declaration;
use crate::style::Number;
use crate::style::Rule;
use crate::style::Selector;
use crate::style::SimpleSelector;
use crate::style::StyleSheet;
use crate::style::Value;
use crate::style::declarations_view;
use crate::style::rules_view;
use crate::style::selectors_view;
use crate::style::sort_selectors;
use crate::style::spec_sort;
use crate::style::strings_view;
use vstd::string::StringExecFns;
use vstd::string::StrSliceExecFns;

verus! {

/// A character valid in an identifier: ASCII letter, digit, or hyphen.
pub open spec fn is_ident_char(c: char) -> bool {
    let u = c as u32;
    (0x41 <= u && u <= 0x5A) || (0x61 <= u && u <= 0x7A) || (0x30 <= u && u <= 0x39) || u == 0x2D
}

/// Executable test for `is_ident_char`.
pub fn valid_identifier_char(identifier: char) -> (r: bool)
    ensures
        r == is_ident_char(identifier),
{
    let u = identifier as u32;
    (0x41 <= u && u <= 0x5A) || (0x61 <= u && u <= 0x7A) || (0x30 <= u && u <= 0x39) || u == 0x2D
}

/// An ASCII decimal digit.
pub open spec fn is_digit_char(c: char) -> bool {
    let u = c as u32;
    0x30 <= u && u <= 0x39
}

/// Executable test for `is_digit_char`.
pub fn digit_char(c: char) -> (r: bool)
    ensures
        r == is_digit_char(c),
{
    let u = c as u32;
    0x30 <= u && u <= 0x39
}

/// An ASCII hexadecimal digit.
pub open spec fn is_hex_char(c: char) -> bool {
    let u = c as u32;
    (0x30 <= u && u <= 0x39) || (0x41 <= u && u <= 0x46) || (0x61 <= u && u <= 0x66)
}

/// The numeric value of a hexadecimal digit; zero on other characters.
pub open spec fn hex_val(c: char) -> int {
    let u = c as u32;
    if 0x30 <= u && u <= 0x39 {
        u - 0x30
    } else if 0x41 <= u && u <= 0x46 {
        u - 0x41 + 10
    } else if 0x61 <= u && u <= 0x66 {
        u - 0x61 + 10
    } else {
        0
    }
}

/// Where the identifier starting at `i` ends.
pub open spec fn ident_end(s: Seq<char>, i: int) -> int {
    scan_end(s, i, |c: char| is_ident_char(c))
}

/// Where the digit run starting at `i` ends.
pub open spec fn digit_end(s: Seq<char>, i: int) -> int {
    scan_end(s, i, |c: char| is_digit_char(c))
}

/// Bounds and boundary facts for `ident_end`.
pub proof fn lemma_ident_end(s: Seq<char>, i: int)
    requires
        0 <= i <= s.len(),
    ensures
        i <= ident_end(s, i) <= s.len(),
        forall|k: int| i <= k < ident_end(s, i) ==> is_ident_char(#[trigger] s[k]),
        ident_end(s, i) < s.len() ==> !is_ident_char(s[ident_end(s, i)]),
{
    lemma_scan_end(s, i, |c: char| is_ident_char(c));
}

/// Bounds and boundary facts for `digit_end`.
pub proof fn lemma_digit_end(s: Seq<char>, i: int)
    requires
        0 <= i <= s.len(),
    ensures
        i <= digit_end(s, i) <= s.len(),
        forall|k: int| i <= k < digit_end(s, i) ==> is_digit_char(#[trigger] s[k]),
        digit_end(s, i) < s.len() ==> !is_digit_char(s[digit_end(s, i)]),
{
    lemma_scan_end(s, i, |c: char| is_digit_char(c));
}

/// What an identifier at `i` parses to: the maximal identifier run, which
/// must be nonempty — a name is required wherever this production is used.
pub open spec fn sp_identifier(s: Seq<char>, i: int) -> Result<(Seq<char>, int), ParseError> {
    let e = ident_end(s, i);
    if e <= i {
        Err(ParseError::EmptyIdentifier)
    } else {
        Ok((s.subrange(i, e), e))
    }
}

/// A successful identifier parse moves strictly forward and stays in
/// bounds.
pub proof fn lemma_sp_identifier_bounds(s: Seq<char>, i: int)
    requires
        0 <= i <= s.len(),
    ensures
        sp_identifier(s, i) matches Ok(p) ==> i < p.1 <= s.len(),
{
    lemma_ident_end(s, i);
}

/// A simple selector with nothing set yet.
pub open spec fn empty_selector() -> SimpleSelectorView {
    SimpleSelectorView { tag_name: None, id: None, class: Seq::empty() }
}

/// What the rest of a simple selector parses to, starting from the parts
/// already collected in `acc`: `#id` sets the id (the last one wins), a
/// `.class` is appended, `*` contributes nothing, an identifier sets the
/// tag name, and any other character (or end-of-input) ends the selector.
pub open spec fn sp_simple_selector_from(s: Seq<char>, i: int, acc: SimpleSelectorView) -> Result<
    (SimpleSelectorView, int),
    ParseError,
>
    decreases s.len() - i
        when 0 <= i <= s.len()
        via sp_simple_selector_from_dec
{
    if i >= s.len() {
        Ok((acc, i))
    } else if s[i] == '#' {
        match sp_identifier(s, i + 1) {
            Ok((id, k)) => sp_simple_selector_from(
                s,
                k,
                SimpleSelectorView { tag_name: acc.tag_name, id: Some(id), class: acc.class },
            ),
            Err(e) => Err(e),
        }
    } else if s[i] == '.' {
        match sp_identifier(s, i + 1) {
            Ok((cl, k)) => sp_simple_selector_from(
                s,
                k,
                SimpleSelectorView {
                    tag_name: acc.tag_name,
                    id: acc.id,
                    class: acc.class.push(cl),
                },
            ),
            Err(e) => Err(e),
        }
    } else if s[i] == '*' {
        sp_simple_selector_from(s, i + 1, acc)
    } else if is_ident_char(s[i]) {
        match sp_identifier(s, i) {
            Ok((tn, k)) => sp_simple_selector_from(
                s,
                k,
                SimpleSelectorView { tag_name: Some(tn), id: acc.id, class: acc.class },
            ),
            Err(e) => Err(e),
        }
    } else {
        Ok((acc, i))
    }
}

#[via_fn]
proof fn sp_simple_selector_from_dec(s: Seq<char>, i: int, acc: SimpleSelectorView) {
    if 0 <= i < s.len() {
        lemma_sp_identifier_bounds(s, i);
        lemma_sp_identifier_bounds(s, i + 1);
    }
}

/// A simple selector parse never moves backward and stays in bounds.
pub proof fn lemma_sp_simple_selector_from_bounds(s: Seq<char>, i: int, acc: SimpleSelectorView)
    requires
        0 <= i <= s.len(),
    ensures
        sp_simple_selector_from(s, i, acc) matches Ok(p) ==> i <= p.1 <= s.len(),
    decreases s.len() - i,
{
    if 0 <= i < s.len() {
        lemma_sp_identifier_bounds(s, i);
        lemma_sp_identifier_bounds(s, i + 1);
        if s[i] == '#' {
            if let Ok((id, k)) = sp_identifier(s, i + 1) {
                lemma_sp_simple_selector_from_bounds(
                    s,
                    k,
                    SimpleSelectorView { tag_name: acc.tag_name, id: Some(id), class: acc.class },
                );
            }
        } else if s[i] == '.' {
            if let Ok((cl, k)) = sp_identifier(s, i + 1) {
                lemma_sp_simple_selector_from_bounds(
                    s,
                    k,
                    SimpleSelectorView {
                        tag_name: acc.tag_name,
                        id: acc.id,
                        class: acc.class.push(cl),
                    },
                );
            }
        } else if s[i] == '*' {
            lemma_sp_simple_selector_from_bounds(s, i + 1, acc);
        } else if is_ident_char(s[i]) {
            if let Ok((tn, k)) = sp_identifier(s, i) {
                lemma_sp_simple_selector_from_bounds(
                    s,
                    k,
                    SimpleSelectorView { tag_name: Some(tn), id: acc.id, class: acc.class },
                );
            }
        }
    }
}

/// What a comma-separated selector list parses to, in source order and not
/// yet sorted: simple selectors separated by `,`, ended by a `{` (not
/// consumed); any other character after a selector is a fatal error.
pub open spec fn sp_selector_list(s: Seq<char>, i: int) -> Result<(Seq<SelectorView>, int), ParseError>
    decreases s.len() - i
        when 0 <= i <= s.len()
        via sp_selector_list_dec
{
    match sp_simple_selector_from(s, i, empty_selector()) {
        Err(e) => Err(e),
        Ok((ss, k)) => {
            let j = ws_end(s, k);
            if j >= s.len() {
                Err(ParseError::UnexpectedEndOfInput)
            } else if s[j] == ',' {
                match sp_selector_list(s, ws_end(s, j + 1)) {
                    Ok((rest, b)) => Ok((seq![SelectorView::Simple(ss)] + rest, b)),
                    Err(e) => Err(e),
                }
            } else if s[j] == '{' {
                Ok((seq![SelectorView::Simple(ss)], j))
            } else {
                Err(ParseError::UnexpectedCharacterInSelectorList)
            }
        },
    }
}

#[via_fn]
proof fn sp_selector_list_dec(s: Seq<char>, i: int) {
    if 0 <= i <= s.len() {
        lemma_sp_simple_selector_from_bounds(s, i, empty_selector());
        if let Ok((ss, k)) = sp_simple_selector_from(s, i, empty_selector()) {
            lemma_ws_end(s, k);
            let j = ws_end(s, k);
            if j < s.len() {
                lemma_ws_end(s, j + 1);
            }
        }
    }
}

/// A successful selector-list parse stays in bounds and stops on a `{`.
pub proof fn lemma_sp_selector_list_bounds(s: Seq<char>, i: int)
    requires
        0 <= i <= s.len(),
    ensures
        sp_selector_list(s, i) matches Ok(p) ==> i <= p.1 < s.len() && s[p.1] == '{',
    decreases s.len() - i,
{
    lemma_sp_simple_selector_from_bounds(s, i, empty_selector());
    if let Ok((ss, k)) = sp_simple_selector_from(s, i, empty_selector()) {
        lemma_ws_end(s, k);
        let j = ws_end(s, k);
        if j < s.len() && s[j] == ',' {
            lemma_ws_end(s, j + 1);
            lemma_sp_selector_list_bounds(s, ws_end(s, j + 1));
        }
    }
}

/// What a length value at `i` parses to: an optional sign, digit runs
/// around an optional decimal point (at least one digit in all), and the
/// unit keyword, which must be `px`.
pub open spec fn sp_length(s: Seq<char>, i: int) -> Result<(ValueView, int), ParseError> {
    let neg = i < s.len() && s[i] == '-';
    let j = if i < s.len() && (s[i] == '-' || s[i] == '+') {
        i + 1
    } else {
        i
    };
    let ie = digit_end(s, j);
    let ints = s.subrange(j, ie);
    let fe = if ie < s.len() && s[ie] == '.' {
        digit_end(s, ie + 1)
    } else {
        ie
    };
    let fracs = if ie < s.len() && s[ie] == '.' {
        s.subrange(ie + 1, fe)
    } else {
        Seq::empty()
    };
    if ints.len() == 0 && fracs.len() == 0 {
        Err(ParseError::EmptyIdentifier)
    } else {
        let ue = ident_end(s, fe);
        if s.subrange(fe, ue) == seq!['p', 'x'] {
            Ok(
                (
                    ValueView::Length(
                        NumberView { negative: neg, int_digits: ints, frac_digits: fracs },
                        Unit::Px,
                    ),
                    ue,
                ),
            )
        } else {
            Err(ParseError::UnknownUnit)
        }
    }
}

/// What a color literal at `i` parses to: `#` and exactly six hexadecimal
/// digits, read as RRGGBB with alpha 255; anything less is a fatal error.
pub open spec fn sp_color(s: Seq<char>, i: int) -> Result<(ValueView, int), ParseError> {
    if i + 7 <= s.len() && is_hex_char(s[i + 1]) && is_hex_char(s[i + 2]) && is_hex_char(s[i + 3])
        && is_hex_char(s[i + 4]) && is_hex_char(s[i + 5]) && is_hex_char(s[i + 6]) {
        Ok(
            (
                ValueView::ColorValue(
                    Color {
                        r: (hex_val(s[i + 1]) * 16 + hex_val(s[i + 2])) as u8,
                        g: (hex_val(s[i + 3]) * 16 + hex_val(s[i + 4])) as u8,
                        b: (hex_val(s[i + 5]) * 16 + hex_val(s[i + 6])) as u8,
                        a: 255,
                    },
                ),
                i + 7,
            ),
        )
    } else {
        Err(ParseError::InvalidColorLiteral)
    }
}

/// What a declaration value at `i` parses to, by one character of
/// lookahead: a digit or sign starts a length, `#` starts a color, and
/// anything else is an identifier wrapped as a keyword.
pub open spec fn sp_value(s: Seq<char>, i: int) -> Result<(ValueView, int), ParseError> {
    if i >= s.len() {
        Err(ParseError::UnexpectedEndOfInput)
    } else if is_digit_char(s[i]) || s[i] == '-' || s[i] == '+' {
        sp_length(s, i)
    } else if s[i] == '#' {
        sp_color(s, i)
    } else {
        match sp_identifier(s, i) {
            Ok((id, k)) => Ok((ValueView::Keyword(id), k)),
            Err(e) => Err(e),
        }
    }
}

/// A successful value parse moves strictly forward and stays in bounds.
pub proof fn lemma_sp_value_bounds(s: Seq<char>, i: int)
    requires
        0 <= i <= s.len(),
    ensures
        sp_value(s, i) matches Ok(p) ==> i < p.1 <= s.len(),
{
    if i < s.len() {
        if is_digit_char(s[i]) || s[i] == '-' || s[i] == '+' {
            let j = if s[i] == '-' || s[i] == '+' {
                i + 1
            } else {
                i
            };
            lemma_digit_end(s, j);
            let ie = digit_end(s, j);
            if ie < s.len() && s[ie] == '.' {
                lemma_digit_end(s, ie + 1);
                lemma_ident_end(s, digit_end(s, ie + 1));
            } else {
                lemma_ident_end(s, ie);
            }
        } else if s[i] == '#' {
        } else {
            lemma_sp_identifier_bounds(s, i);
        }
    }
}

/// What one `name: value;` declaration at `i` parses to.
pub open spec fn sp_declaration(s: Seq<char>, i: int) -> Result<(DeclarationView, int), ParseError> {
    match sp_identifier(s, i) {
        Err(e) => Err(e),
        Ok((name, j0)) => {
            let j = ws_end(s, j0);
            if j >= s.len() {
                Err(ParseError::UnexpectedEndOfInput)
            } else if s[j] != ':' {
                Err(ParseError::MalformedDeclaration)
            } else {
                let j2 = ws_end(s, j + 1);
                match sp_value(s, j2) {
                    Err(e) => Err(e),
                    Ok((v, k0)) => {
                        let k = ws_end(s, k0);
                        if k >= s.len() {
                            Err(ParseError::UnexpectedEndOfInput)
                        } else if s[k] != ';' {
                            Err(ParseError::MalformedDeclaration)
                        } else {
                            Ok((DeclarationView { name: name, value: v }, k + 1))
                        }
                    },
                }
            }
        },
    }
}

/// A successful declaration parse moves strictly forward and stays in
/// bounds.
pub proof fn lemma_sp_declaration_bounds(s: Seq<char>, i: int)
    requires
        0 <= i <= s.len(),
    ensures
        sp_declaration(s, i) matches Ok(p) ==> i < p.1 <= s.len(),
{
    lemma_sp_identifier_bounds(s, i);
    if let Ok((name, j0)) = sp_identifier(s, i) {
        lemma_ws_end(s, j0);
        let j = ws_end(s, j0);
        if j < s.len() && s[j] == ':' {
            lemma_ws_end(s, j + 1);
            let j2 = ws_end(s, j + 1);
            lemma_sp_value_bounds(s, j2);
            if let Ok((v, k0)) = sp_value(s, j2) {
                lemma_ws_end(s, k0);
            }
        }
    }
}

/// What the inside of a declaration block parses to, after its `{`:
/// whitespace-separated declarations up to the closing `}`, which is
/// consumed.
pub open spec fn sp_declarations_from(s: Seq<char>, i: int) -> Result<
    (Seq<DeclarationView>, int),
    ParseError,
>
    decreases s.len() - i
        when 0 <= i <= s.len()
        via sp_declarations_from_dec
{
    let j = ws_end(s, i);
    if j >= s.len() {
        Err(ParseError::UnexpectedEndOfInput)
    } else if s[j] == '}' {
        Ok((Seq::empty(), j + 1))
    } else {
        match sp_declaration(s, j) {
            Err(e) => Err(e),
            Ok((d, k)) => match sp_declarations_from(s, k) {
                Ok((rest, b)) => Ok((seq![d] + rest, b)),
                Err(e) => Err(e),
            },
        }
    }
}

#[via_fn]
proof fn sp_declarations_from_dec(s: Seq<char>, i: int) {
    if 0 <= i <= s.len() {
        lemma_ws_end(s, i);
        lemma_sp_declaration_bounds(s, ws_end(s, i));
    }
}

/// A successful declaration-block parse moves strictly forward and stays
/// in bounds.
pub proof fn lemma_sp_declarations_from_bounds(s: Seq<char>, i: int)
    requires
        0 <= i <= s.len(),
    ensures
        sp_declarations_from(s, i) matches Ok(p) ==> i < p.1 <= s.len(),
    decreases s.len() - i,
{
    lemma_ws_end(s, i);
    let j = ws_end(s, i);
    if j < s.len() && s[j] != '}' {
        lemma_sp_declaration_bounds(s, j);
        if let Ok((d, k)) = sp_declaration(s, j) {
            lemma_sp_declarations_from_bounds(s, k);
        }
    }
}

/// What a declaration block at `i` parses to: `{`, declarations, `}`.
pub open spec fn sp_declarations(s: Seq<char>, i: int) -> Result<(Seq<DeclarationView>, int), ParseError> {
    if i >= s.len() {
        Err(ParseError::UnexpectedEndOfInput)
    } else if s[i] != '{' {
        Err(ParseError::MalformedDeclaration)
    } else {
        sp_declarations_from(s, i + 1)
    }
}

/// What one rule at `i` parses to: a selector list, sorted descending by
/// specificity with the stable `spec_sort`, then a declaration block.
pub open spec fn sp_rule(s: Seq<char>, i: int) -> Result<(RuleView, int), ParseError> {
    match sp_selector_list(s, i) {
        Err(e) => Err(e),
        Ok((sels, j)) => match sp_declarations(s, j) {
            Err(e) => Err(e),
            Ok((ds, k)) => Ok((RuleView { selectors: spec_sort(sels), declarations: ds }, k)),
        },
    }
}

/// A successful rule parse moves strictly forward and stays in bounds.
pub proof fn lemma_sp_rule_bounds(s: Seq<char>, i: int)
    requires
        0 <= i <= s.len(),
    ensures
        sp_rule(s, i) matches Ok(p) ==> i < p.1 <= s.len(),
{
    lemma_sp_selector_list_bounds(s, i);
    if let Ok((sels, j)) = sp_selector_list(s, i) {
        if j < s.len() && s[j] == '{' {
            lemma_sp_declarations_from_bounds(s, j + 1);
        }
    }
}

/// What a rule sequence at `i` parses to: whitespace-separated rules up to
/// end-of-input.
pub open spec fn sp_rules_from(s: Seq<char>, i: int) -> Result<(Seq<RuleView>, int), ParseError>
    decreases s.len() - i
        when 0 <= i <= s.len()
        via sp_rules_from_dec
{
    let j = ws_end(s, i);
    if j >= s.len() {
        Ok((Seq::empty(), j))
    } else {
        match sp_rule(s, j) {
            Err(e) => Err(e),
            Ok((r, k)) => match sp_rules_from(s, k) {
                Ok((rest, b)) => Ok((seq![r] + rest, b)),
                Err(e) => Err(e),
            },
        }
    }
}

#[via_fn]
proof fn sp_rules_from_dec(s: Seq<char>, i: int) {
    if 0 <= i <= s.len() {
        lemma_ws_end(s, i);
        lemma_sp_rule_bounds(s, ws_end(s, i));
    }
}

/// What a whole stylesheet parses to: its rule sequence, in source order.
pub open spec fn sp_css(s: Seq<char>) -> Result<Seq<RuleView>, ParseError> {
    match sp_rules_from(s, 0) {
        Ok((rs, _)) => Ok(rs),
        Err(e) => Err(e),
    }
}

/// Executable test for `is_hex_char`.
pub fn hex_char(c: char) -> (r: bool)
    ensures
        r == is_hex_char(c),
{
    let u = c as u32;
    (0x30 <= u && u <= 0x39) || (0x41 <= u && u <= 0x46) || (0x61 <= u && u <= 0x66)
}

/// Executable counterpart of `hex_val`.
pub fn hex_value(c: char) -> (v: u8)
    ensures
        v as int == hex_val(c),
        v < 16,
{
    let u = c as u32;
    if 0x30 <= u && u <= 0x39 {
        (u - 0x30) as u8
    } else if 0x41 <= u && u <= 0x46 {
        (u - 0x41 + 10) as u8
    } else if 0x61 <= u && u <= 0x66 {
        (u - 0x61 + 10) as u8
    } else {
        0
    }
}

/// parse an identifier, as `sp_identifier` describes it: the run must be
/// nonempty
pub fn parse_identifier(cur: &mut Cursor) -> (r: Result<String, ParseError>)
    requires
        old(cur).wf(),
    ensures
        final(cur).wf(),
        final(cur).text() == old(cur).text(),
        ({
            let r0 = sp_identifier(old(cur).text(), old(cur).position());
            match r {
                Ok(id) => r0 matches Ok(p) && id@ == p.0 && final(cur).position() == p.1,
                Err(e) => r0 matches Err(e2) && e == e2,
            }
        }),
{
    proof {
        old(cur).lemma_wf_bounds();
        lemma_ident_end(old(cur).text(), old(cur).position());
    }
    let filter = |c: char| -> (b: bool)
        ensures
            b == is_ident_char(c),
        { valid_identifier_char(c) };
    let id = cur.consume_until(filter, Ghost(|c: char| is_ident_char(c)));
    if id.as_str().unicode_len() == 0 {
        Err(ParseError::EmptyIdentifier)
    } else {
        Ok(id)
    }
}

/// parse the rest of one simple selector into `sel`, as
/// `sp_simple_selector_from` describes it
fn parse_simple_selector_more(cur: &mut Cursor, sel: &mut SimpleSelector) -> (r: Result<
    (),
    ParseError,
>)
    requires
        old(cur).wf(),
    ensures
        final(cur).wf(),
        final(cur).text() == old(cur).text(),
        ({
            let r0 = sp_simple_selector_from(old(cur).text(), old(cur).position(), old(sel)@);
            match r {
                Ok(u) => r0 matches Ok(p) && final(sel)@ == p.0 && final(cur).position() == p.1,
                Err(e) => r0 matches Err(e2) && e == e2,
            }
        }),
    decreases cur.text().len() - cur.position(),
{
    let ghost s = old(cur).text();
    let ghost i = old(cur).position();
    proof {
        old(cur).lemma_wf_bounds();
    }
    if cur.eof() {
        return Ok(());
    }
    let c = cur.next_char();
    if c == '#' {
        cur.consume_char();
        proof {
            lemma_sp_identifier_bounds(s, i + 1);
        }
        match parse_identifier(cur) {
            Err(e) => Err(e),
            Ok(id) => {
                sel.id = Some(id);
                parse_simple_selector_more(cur, sel)
            },
        }
    } else if c == '.' {
        cur.consume_char();
        proof {
            lemma_sp_identifier_bounds(s, i + 1);
        }
        match parse_identifier(cur) {
            Err(e) => Err(e),
            Ok(id) => {
                let ghost pre = sel.class@;
                sel.class.push(id);
                proof {
                    assert(strings_view(sel.class@) =~= strings_view(pre).push(id@));
                }
                parse_simple_selector_more(cur, sel)
            },
        }
    } else if c == '*' {
        cur.consume_char();
        parse_simple_selector_more(cur, sel)
    } else if valid_identifier_char(c) {
        proof {
            lemma_sp_identifier_bounds(s, i);
        }
        match parse_identifier(cur) {
            Err(e) => Err(e),
            Ok(tn) => {
                sel.tag_name = Some(tn);
                parse_simple_selector_more(cur, sel)
            },
        }
    } else {
        Ok(())
    }
}

/// parse one simple selector, e.g. `type#id.class1.class2`, as
/// `sp_simple_selector_from` (seeded with the empty selector) describes it
pub fn parse_simple_selector(cur: &mut Cursor) -> (r: Result<SimpleSelector, ParseError>)
    requires
        old(cur).wf(),
    ensures
        final(cur).wf(),
        final(cur).text() == old(cur).text(),
        ({
            let r0 = sp_simple_selector_from(old(cur).text(), old(cur).position(), empty_selector());
            match r {
                Ok(ss) => r0 matches Ok(p) && ss@ == p.0 && final(cur).position() == p.1,
                Err(e) => r0 matches Err(e2) && e == e2,
            }
        }),
{
    let mut sel = SimpleSelector { tag_name: None, id: None, class: Vec::new() };
    proof {
        assert(strings_view(sel.class@) =~= Seq::<Seq<char>>::empty());
        assert(sel@ == empty_selector());
    }
    match parse_simple_selector_more(cur, &mut sel) {
        Ok(()) => Ok(sel),
        Err(e) => Err(e),
    }
}

/// parse the selector list of a rule into `acc`, in source order, as
/// `sp_selector_list` describes it; stops before the `{`
fn parse_selector_list_more(cur: &mut Cursor, acc: &mut Vec<Selector>) -> (r: Result<
    (),
    ParseError,
>)
    requires
        old(cur).wf(),
    ensures
        final(cur).wf(),
        final(cur).text() == old(cur).text(),
        ({
            let r0 = sp_selector_list(old(cur).text(), old(cur).position());
            match r {
                Ok(u) => r0 matches Ok(p) && selectors_view(final(acc)@) == selectors_view(
                    old(acc)@,
                ) + p.0 && final(cur).position() == p.1,
                Err(e) => r0 matches Err(e2) && e == e2,
            }
        }),
    decreases cur.text().len() - cur.position(),
{
    let ghost s = old(cur).text();
    let ghost i = old(cur).position();
    proof {
        old(cur).lemma_wf_bounds();
        lemma_sp_simple_selector_from_bounds(s, i, empty_selector());
    }
    match parse_simple_selector(cur) {
        Err(e) => Err(e),
        Ok(ss) => {
            let ghost k = cur.position();
            proof {
                lemma_ws_end(s, k);
            }
            cur.consume_whitespace();
            if cur.eof() {
                return Err(ParseError::UnexpectedEndOfInput);
            }
            let ghost j = cur.position();
            let c = cur.next_char();
            if c == ',' {
                cur.consume_char();
                proof {
                    lemma_ws_end(s, j + 1);
                }
                cur.consume_whitespace();
                let ghost pre = acc@;
                acc.push(Selector::Simple(ss));
                proof {
                    assert(selectors_view(acc@) =~= selectors_view(pre).push(
                        SelectorView::Simple(ss@),
                    ));
                }
                match parse_selector_list_more(cur, acc) {
                    Err(e) => Err(e),
                    Ok(()) => {
                        proof {
                            let rest = sp_selector_list(s, ws_end(s, j + 1))->Ok_0.0;
                            assert(selectors_view(acc@) =~= selectors_view(pre) + (seq![
                                SelectorView::Simple(ss@),
                            ] + rest));
                        }
                        Ok(())
                    },
                }
            } else if c == '{' {
                let ghost pre = acc@;
                acc.push(Selector::Simple(ss));
                proof {
                    assert(selectors_view(acc@) =~= selectors_view(pre) + seq![
                        SelectorView::Simple(ss@),
                    ]);
                }
                Ok(())
            } else {
                Err(ParseError::UnexpectedCharacterInSelectorList)
            }
        },
    }
}

/// parse a comma-separated list of selectors and return it sorted
/// descending by specificity; stable, so selectors of equal specificity
/// keep their source order
pub fn parse_selectors(cur: &mut Cursor) -> (r: Result<Vec<Selector>, ParseError>)
    requires
        old(cur).wf(),
    ensures
        final(cur).wf(),
        final(cur).text() == old(cur).text(),
        ({
            let r0 = sp_selector_list(old(cur).text(), old(cur).position());
            match r {
                Ok(v) => r0 matches Ok(p) && selectors_view(v@) == spec_sort(p.0)
                    && final(cur).position() == p.1,
                Err(e) => r0 matches Err(e2) && e == e2,
            }
        }),
{
    let mut acc: Vec<Selector> = Vec::new();
    proof {
        assert(selectors_view(acc@) =~= Seq::<SelectorView>::empty());
    }
    match parse_selector_list_more(cur, &mut acc) {
        Err(e) => Err(e),
        Ok(()) => {
            proof {
                let raw = sp_selector_list(old(cur).text(), old(cur).position())->Ok_0.0;
                assert(Seq::<SelectorView>::empty() + raw =~= raw);
            }
            Ok(sort_selectors(acc))
        },
    }
}

/// parse a length value: an optional sign, a decimal literal, and the
/// unit, as `sp_length` describes it
fn parse_length(cur: &mut Cursor) -> (r: Result<Value, ParseError>)
    requires
        old(cur).wf(),
        old(cur).position() < old(cur).text().len(),
    ensures
        final(cur).wf(),
        final(cur).text() == old(cur).text(),
        ({
            let r0 = sp_length(old(cur).text(), old(cur).position());
            match r {
                Ok(v) => r0 matches Ok(p) && v@ == p.0 && final(cur).position() == p.1,
                Err(e) => r0 matches Err(e2) && e == e2,
            }
        }),
{
    let ghost s = old(cur).text();
    let ghost i = old(cur).position();
    proof {
        old(cur).lemma_wf_bounds();
    }
    let c = cur.next_char();
    let neg = c == '-';
    if c == '-' || c == '+' {
        cur.consume_char();
    }
    let digits = |c: char| -> (b: bool)
        ensures
            b == is_digit_char(c),
        { digit_char(c) };
    let ints = cur.consume_until(digits, Ghost(|c: char| is_digit_char(c)));
    proof {
        lemma_digit_end(s, if c == '-' || c == '+' { i + 1 } else { i });
    }
    let fracs = if !cur.eof() && cur.next_char() == '.' {
        cur.consume_char();
        let digits2 = |c: char| -> (b: bool)
            ensures
                b == is_digit_char(c),
            { digit_char(c) };
        cur.consume_until(digits2, Ghost(|c: char| is_digit_char(c)))
    } else {
        String::new()
    };
    if ints.as_str().unicode_len() == 0 && fracs.as_str().unicode_len() == 0 {
        return Err(ParseError::EmptyIdentifier);
    }
    let idents = |c: char| -> (b: bool)
        ensures
            b == is_ident_char(c),
        { valid_identifier_char(c) };
    let unit = cur.consume_until(idents, Ghost(|c: char| is_ident_char(c)));
    proof {
        reveal_strlit("px");
        assert("px"@ =~= seq!['p', 'x']);
    }
    if str_eq(unit.as_str(), "px") {
        Ok(Value::Length(Number { negative: neg, int_digits: ints, frac_digits: fracs }, Unit::Px))
    } else {
        Err(ParseError::UnknownUnit)
    }
}

/// read one hexadecimal digit of a color literal
fn read_hex(cur: &mut Cursor) -> (r: Result<u8, ParseError>)
    requires
        old(cur).wf(),
    ensures
        final(cur).wf(),
        final(cur).text() == old(cur).text(),
        match r {
            Ok(v) => old(cur).position() < old(cur).text().len()
                && is_hex_char(old(cur).text()[old(cur).position()])
                && v as int == hex_val(old(cur).text()[old(cur).position()])
                && v < 16
                && final(cur).position() == old(cur).position() + 1,
            Err(e) => (old(cur).position() >= old(cur).text().len()
                || !is_hex_char(old(cur).text()[old(cur).position()]))
                && e == ParseError::InvalidColorLiteral,
        },
{
    proof {
        old(cur).lemma_wf_bounds();
    }
    if cur.eof() {
        return Err(ParseError::InvalidColorLiteral);
    }
    let c = cur.next_char();
    if !hex_char(c) {
        return Err(ParseError::InvalidColorLiteral);
    }
    cur.consume_char();
    Ok(hex_value(c))
}

/// parse a color literal after its `#`: exactly six hexadecimal digits, as
/// `sp_color` describes it
fn parse_color(cur: &mut Cursor) -> (r: Result<Value, ParseError>)
    requires
        old(cur).wf(),
        old(cur).position() < old(cur).text().len(),
    ensures
        final(cur).wf(),
        final(cur).text() == old(cur).text(),
        ({
            let r0 = sp_color(old(cur).text(), old(cur).position());
            match r {
                Ok(v) => r0 matches Ok(p) && v@ == p.0 && final(cur).position() == p.1,
                Err(e) => r0 matches Err(e2) && e == e2,
            }
        }),
{
    proof {
        old(cur).lemma_wf_bounds();
    }
    cur.consume_char();
    let d1 = match read_hex(cur) {
        Ok(v) => v,
        Err(e) => return Err(e),
    };
    let d2 = match read_hex(cur) {
        Ok(v) => v,
        Err(e) => return Err(e),
    };
    let d3 = match read_hex(cur) {
        Ok(v) => v,
        Err(e) => return Err(e),
    };
    let d4 = match read_hex(cur) {
        Ok(v) => v,
        Err(e) => return Err(e),
    };
    let d5 = match read_hex(cur) {
        Ok(v) => v,
        Err(e) => return Err(e),
    };
    let d6 = match read_hex(cur) {
        Ok(v) => v,
        Err(e) => return Err(e),
    };
    Ok(
        Value::ColorValue(
            Color { r: d1 * 16 + d2, g: d3 * 16 + d4, b: d5 * 16 + d6, a: 255 },
        ),
    )
}

/// parse a declaration value, dispatching on one character of lookahead,
/// as `sp_value` describes it
pub fn parse_value(cur: &mut Cursor) -> (r: Result<Value, ParseError>)
    requires
        old(cur).wf(),
    ensures
        final(cur).wf(),
        final(cur).text() == old(cur).text(),
        ({
            let r0 = sp_value(old(cur).text(), old(cur).position());
            match r {
                Ok(v) => r0 matches Ok(p) && v@ == p.0 && final(cur).position() == p.1,
                Err(e) => r0 matches Err(e2) && e == e2,
            }
        }),
{
    proof {
        old(cur).lemma_wf_bounds();
    }
    if cur.eof() {
        return Err(ParseError::UnexpectedEndOfInput);
    }
    let c = cur.next_char();
    if digit_char(c) || c == '-' || c == '+' {
        parse_length(cur)
    } else if c == '#' {
        parse_color(cur)
    } else {
        match parse_identifier(cur) {
            Ok(id) => Ok(Value::Keyword(id)),
            Err(e) => Err(e),
        }
    }
}

/// parse one `<property>: <value>;` declaration, as `sp_declaration`
/// describes it
pub fn parse_declaration(cur: &mut Cursor) -> (r: Result<Declaration, ParseError>)
    requires
        old(cur).wf(),
    ensures
        final(cur).wf(),
        final(cur).text() == old(cur).text(),
        ({
            let r0 = sp_declaration(old(cur).text(), old(cur).position());
            match r {
                Ok(d) => r0 matches Ok(p) && d@ == p.0 && final(cur).position() == p.1,
                Err(e) => r0 matches Err(e2) && e == e2,
            }
        }),
{
    let ghost s = old(cur).text();
    proof {
        old(cur).lemma_wf_bounds();
    }
    let name = match parse_identifier(cur) {
        Ok(n) => n,
        Err(e) => return Err(e),
    };
    proof {
        cur.lemma_wf_bounds();
        lemma_ws_end(s, cur.position());
    }
    cur.consume_whitespace();
    if cur.eof() {
        return Err(ParseError::UnexpectedEndOfInput);
    }
    if cur.next_char() != ':' {
        return Err(ParseError::MalformedDeclaration);
    }
    cur.consume_char();
    proof {
        cur.lemma_wf_bounds();
        lemma_ws_end(s, cur.position());
    }
    cur.consume_whitespace();
    let value = match parse_value(cur) {
        Ok(v) => v,
        Err(e) => return Err(e),
    };
    proof {
        cur.lemma_wf_bounds();
        lemma_ws_end(s, cur.position());
    }
    cur.consume_whitespace();
    if cur.eof() {
        return Err(ParseError::UnexpectedEndOfInput);
    }
    if cur.next_char() != ';' {
        return Err(ParseError::MalformedDeclaration);
    }
    cur.consume_char();
    Ok(Declaration { name, value })
}

/// parse the inside of a declaration block into `acc`, as
/// `sp_declarations_from` describes it; consumes the closing `}`
fn parse_declarations_more(cur: &mut Cursor, acc: &mut Vec<Declaration>) -> (r: Result<
    (),
    ParseError,
>)
    requires
        old(cur).wf(),
    ensures
        final(cur).wf(),
        final(cur).text() == old(cur).text(),
        ({
            let r0 = sp_declarations_from(old(cur).text(), old(cur).position());
            match r {
                Ok(u) => r0 matches Ok(p) && declarations_view(final(acc)@) == declarations_view(
                    old(acc)@,
                ) + p.0 && final(cur).position() == p.1,
                Err(e) => r0 matches Err(e2) && e == e2,
            }
        }),
    decreases cur.text().len() - cur.position(),
{
    let ghost s = old(cur).text();
    let ghost i = old(cur).position();
    proof {
        old(cur).lemma_wf_bounds();
        lemma_ws_end(s, i);
    }
    cur.consume_whitespace();
    if cur.eof() {
        return Err(ParseError::UnexpectedEndOfInput);
    }
    let ghost j = cur.position();
    if cur.next_char() == '}' {
        cur.consume_char();
        proof {
            assert(declarations_view(acc@) + Seq::<DeclarationView>::empty() =~= declarations_view(
                acc@,
            ));
        }
        return Ok(());
    }
    match parse_declaration(cur) {
        Err(e) => Err(e),
        Ok(d) => {
            proof {
                lemma_sp_declaration_bounds(s, j);
            }
            let ghost pre = acc@;
            acc.push(d);
            proof {
                assert(declarations_view(acc@) =~= declarations_view(pre).push(
                    sp_declaration(s, j)->Ok_0.0,
                ));
            }
            match parse_declarations_more(cur, acc) {
                Err(e) => Err(e),
                Ok(()) => {
                    proof {
                        let d0 = sp_declaration(s, j)->Ok_0.0;
                        let rest = sp_declarations_from(s, sp_declaration(s, j)->Ok_0.1)->Ok_0.0;
                        assert(declarations_view(acc@) =~= declarations_view(pre) + (seq![d0]
                            + rest));
                    }
                    Ok(())
                },
            }
        },
    }
}

/// parse a declaration block enclosed in `{ ... }`, as `sp_declarations`
/// describes it
pub fn parse_declarations(cur: &mut Cursor) -> (r: Result<Vec<Declaration>, ParseError>)
    requires
        old(cur).wf(),
    ensures
        final(cur).wf(),
        final(cur).text() == old(cur).text(),
        ({
            let r0 = sp_declarations(old(cur).text(), old(cur).position());
            match r {
                Ok(v) => r0 matches Ok(p) && declarations_view(v@) == p.0 && final(cur).position()
                    == p.1,
                Err(e) => r0 matches Err(e2) && e == e2,
            }
        }),
{
    proof {
        old(cur).lemma_wf_bounds();
    }
    if cur.eof() {
        return Err(ParseError::UnexpectedEndOfInput);
    }
    if cur.next_char() != '{' {
        return Err(ParseError::MalformedDeclaration);
    }
    cur.consume_char();
    let mut acc: Vec<Declaration> = Vec::new();
    proof {
        assert(declarations_view(acc@) =~= Seq::<DeclarationView>::empty());
    }
    match parse_declarations_more(cur, &mut acc) {
        Err(e) => Err(e),
        Ok(()) => {
            proof {
                let ds = sp_declarations_from(
                    old(cur).text(),
                    old(cur).position() + 1,
                )->Ok_0.0;
                assert(Seq::<DeclarationView>::empty() + ds =~= ds);
            }
            Ok(acc)
        },
    }
}

/// parse a rule set: a selector list and its declaration block, as
/// `sp_rule` describes it
pub fn parse_rule(cur: &mut Cursor) -> (r: Result<Rule, ParseError>)
    requires
        old(cur).wf(),
    ensures
        final(cur).wf(),
        final(cur).text() == old(cur).text(),
        ({
            let r0 = sp_rule(old(cur).text(), old(cur).position());
            match r {
                Ok(rl) => r0 matches Ok(p) && rl@ == p.0 && final(cur).position() == p.1,
                Err(e) => r0 matches Err(e2) && e == e2,
            }
        }),
{
    let selectors = match parse_selectors(cur) {
        Ok(v) => v,
        Err(e) => return Err(e),
    };
    let declarations = match parse_declarations(cur) {
        Ok(v) => v,
        Err(e) => return Err(e),
    };
    Ok(Rule { selectors, declarations })
}

/// parse a rule sequence into `acc`, as `sp_rules_from` describes it
fn parse_rules_more(cur: &mut Cursor, acc: &mut Vec<Rule>) -> (r: Result<(), ParseError>)
    requires
        old(cur).wf(),
    ensures
        final(cur).wf(),
        final(cur).text() == old(cur).text(),
        ({
            let r0 = sp_rules_from(old(cur).text(), old(cur).position());
            match r {
                Ok(u) => r0 matches Ok(p) && rules_view(final(acc)@) == rules_view(old(acc)@) + p.0
                    && final(cur).position() == p.1,
                Err(e) => r0 matches Err(e2) && e == e2,
            }
        }),
    decreases cur.text().len() - cur.position(),
{
    let ghost s = old(cur).text();
    let ghost i = old(cur).position();
    proof {
        old(cur).lemma_wf_bounds();
        lemma_ws_end(s, i);
    }
    cur.consume_whitespace();
    if cur.eof() {
        proof {
            assert(rules_view(acc@) + Seq::<RuleView>::empty() =~= rules_view(acc@));
        }
        return Ok(());
    }
    let ghost j = cur.position();
    match parse_rule(cur) {
        Err(e) => Err(e),
        Ok(rl) => {
            proof {
                lemma_sp_rule_bounds(s, j);
            }
            let ghost pre = acc@;
            acc.push(rl);
            proof {
                assert(rules_view(acc@) =~= rules_view(pre).push(sp_rule(s, j)->Ok_0.0));
            }
            match parse_rules_more(cur, acc) {
                Err(e) => Err(e),
                Ok(()) => {
                    proof {
                        let r0 = sp_rule(s, j)->Ok_0.0;
                        let rest = sp_rules_from(s, sp_rule(s, j)->Ok_0.1)->Ok_0.0;
                        assert(rules_view(acc@) =~= rules_view(pre) + (seq![r0] + rest));
                    }
                    Ok(())
                },
            }
        },
    }
}

/// parse a sequence of rules up to end-of-input, in source order
pub fn parse_rules(cur: &mut Cursor) -> (r: Result<Vec<Rule>, ParseError>)
    requires
        old(cur).wf(),
    ensures
        final(cur).wf(),
        final(cur).text() == old(cur).text(),
        ({
            let r0 = sp_rules_from(old(cur).text(), old(cur).position());
            match r {
                Ok(v) => r0 matches Ok(p) && rules_view(v@) == p.0 && final(cur).position() == p.1,
                Err(e) => r0 matches Err(e2) && e == e2,
            }
        }),
{
    let mut acc: Vec<Rule> = Vec::new();
    proof {
        assert(rules_view(acc@) =~= Seq::<RuleView>::empty());
    }
    match parse_rules_more(cur, &mut acc) {
        Err(e) => Err(e),
        Ok(()) => {
            proof {
                let rs = sp_rules_from(old(cur).text(), old(cur).position())->Ok_0.0;
                assert(Seq::<RuleView>::empty() + rs =~= rs);
            }
            Ok(acc)
        },
    }
}

/// Parse a whole stylesheet: the sole style entry point. Rules come back
/// in source order; each rule's selectors are pre-sorted descending by
/// specificity.
pub fn parse_css(source: &str) -> (r: Result<StyleSheet, ParseError>)
    ensures
        ({
            let r0 = sp_css(source@);
            match r {
                Ok(sheet) => r0 matches Ok(rs) && sheet@ == rs,
                Err(e) => r0 matches Err(e2) && e == e2,
            }
        }),
{
    let mut cur = Cursor::new(source);
    match parse_rules(&mut cur) {
        Ok(rules) => Ok(StyleSheet { rules }),
        Err(e) => Err(e),
    }
}

} // verus!
