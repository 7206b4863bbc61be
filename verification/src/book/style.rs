//! Parsed stylesheets and the style properties the layout reads.

use vstd::prelude::*;
use crate::book::layout::{Direction, WritingMode};
use crate::strings::{str_eq, trim_spec, trim_str};

verus! {

/// All stylesheets of the book and their computed rules.
#[derive(Debug, Clone, Default)]
pub struct Styles {
    pub sheets: Vec<StyleSheet>,
    pub computed: Vec<ComputedStyle>,
}

/// One stylesheet: its href, source and rules.
#[derive(Debug, Clone, Default)]
pub struct StyleSheet {
    pub href: String,
    pub source: String,
    pub rules: Vec<CssRule>,
}

/// One rule: a selector and its declarations.
#[derive(Debug, Clone, Default)]
pub struct CssRule {
    pub selector: String,
    pub declarations: Vec<CssDeclaration>,
}

/// One `property: value` declaration.
#[derive(Debug, Clone, Default)]
pub struct CssDeclaration {
    pub property: String,
    pub value: String,
}

/// The recognized declarations of one rule.
#[derive(Debug, Clone, Default)]
pub struct ComputedStyle {
    pub selector: String,
    pub writing_mode: Option<WritingMode>,
    pub direction: Option<Direction>,
    pub text_orientation: Option<String>,
    pub text_combine_upright: Option<String>,
    pub text_emphasis: Option<String>,
    pub ruby_position: Option<String>,
    pub ruby_align: Option<String>,
    pub line_break: Option<String>,
    pub word_break: Option<String>,
}

/// The characters of an optional string.
pub open spec fn opt_view(o: Option<String>) -> Option<Seq<char>> {
    match o {
        Some(s) => Some(s@),
        None => None,
    }
}

/// The trimmed value of the last of the first `n` declarations whose
/// property is `name` or `alias`.
pub open spec fn last_value(decls: Seq<CssDeclaration>, n: int, name: Seq<char>, alias: Seq<char>) -> Option<Seq<char>>
    decreases n,
{
    if n <= 0 || n > decls.len() {
        None
    } else if decls[n - 1].property@ == name || decls[n - 1].property@ == alias {
        Some(trim_spec(decls[n - 1].value@))
    } else {
        last_value(decls, n - 1, name, alias)
    }
}

/// The writing mode a `writing-mode` value names.
pub open spec fn writing_mode_value_of(v: Seq<char>) -> Option<WritingMode> {
    if v == "vertical-rl"@ {
        Some(WritingMode::VerticalRl)
    } else if v == "vertical-lr"@ {
        Some(WritingMode::VerticalLr)
    } else if v == "horizontal-tb"@ {
        Some(WritingMode::HorizontalTb)
    } else {
        None
    }
}

/// The direction a `direction` value names.
pub open spec fn direction_value_of(v: Seq<char>) -> Option<Direction> {
    if v == "ltr"@ {
        Some(Direction::Ltr)
    } else if v == "rtl"@ {
        Some(Direction::Rtl)
    } else {
        None
    }
}

/// `f` applied to an optional value.
pub open spec fn then_wm(v: Option<Seq<char>>) -> Option<WritingMode> {
    match v {
        Some(x) => writing_mode_value_of(x),
        None => None,
    }
}

/// `direction_value_of` applied to an optional value.
pub open spec fn then_dir(v: Option<Seq<char>>) -> Option<Direction> {
    match v {
        Some(x) => direction_value_of(x),
        None => None,
    }
}

/// `s` holds the recognized declarations of the first `n` declarations of
/// `rule`: for each property, the last declaration wins.
pub open spec fn style_upto(s: ComputedStyle, rule: CssRule, n: int) -> bool {
    let d = rule.declarations@;
    &&& s.selector@ == rule.selector@
    &&& s.writing_mode == then_wm(last_value(d, n, "writing-mode"@, "writing-mode"@))
    &&& s.direction == then_dir(last_value(d, n, "direction"@, "direction"@))
    &&& opt_view(s.text_orientation) == last_value(d, n, "text-orientation"@, "text-orientation"@)
    &&& opt_view(s.text_combine_upright) == last_value(d, n, "text-combine-upright"@, "text-combine-upright"@)
    &&& opt_view(s.text_emphasis) == last_value(d, n, "text-emphasis"@, "-webkit-text-emphasis"@)
    &&& opt_view(s.ruby_position) == last_value(d, n, "ruby-position"@, "ruby-position"@)
    &&& opt_view(s.ruby_align) == last_value(d, n, "ruby-align"@, "ruby-align"@)
    &&& opt_view(s.line_break) == last_value(d, n, "line-break"@, "line-break"@)
    &&& opt_view(s.word_break) == last_value(d, n, "word-break"@, "word-break"@)
}

/// `s` is the computed style of `rule`.
pub open spec fn style_of(s: ComputedStyle, rule: CssRule) -> bool {
    style_upto(s, rule, rule.declarations@.len() as int)
}

impl ComputedStyle {
    /// The recognized declarations of a rule; for each property the last
    /// declaration wins, and an unrecognized writing mode or direction
    /// clears an earlier one.
    pub fn from_rule(rule: &CssRule) -> (style: Self)
        ensures
            style_of(style, *rule),
    {
        let mut style = ComputedStyle {
            selector: rule.selector.clone(),
            writing_mode: None,
            direction: None,
            text_orientation: None,
            text_combine_upright: None,
            text_emphasis: None,
            ruby_position: None,
            ruby_align: None,
            line_break: None,
            word_break: None,
        };
        let n = rule.declarations.len();
        let mut i: usize = 0;
        while i < n
            invariant
                n == rule.declarations@.len(),
                i <= n,
                style_upto(style, *rule, i as int),
            decreases n - i,
        {
            let declaration = &rule.declarations[i];
            let property = declaration.property.as_str();
            let value = trim_str(declaration.value.as_str());
            let ghost d = rule.declarations@;
            assert(d[i as int] == *declaration);
            if str_eq(property, "writing-mode") {
                style.writing_mode = if str_eq(value, "vertical-rl") {
                    Some(WritingMode::VerticalRl)
                } else if str_eq(value, "vertical-lr") {
                    Some(WritingMode::VerticalLr)
                } else if str_eq(value, "horizontal-tb") {
                    Some(WritingMode::HorizontalTb)
                } else {
                    None
                };
            }
            if str_eq(property, "direction") {
                style.direction = if str_eq(value, "ltr") {
                    Some(Direction::Ltr)
                } else if str_eq(value, "rtl") {
                    Some(Direction::Rtl)
                } else {
                    None
                };
            }
            if str_eq(property, "text-orientation") {
                style.text_orientation = Some(value.to_owned());
            }
            if str_eq(property, "text-combine-upright") {
                style.text_combine_upright = Some(value.to_owned());
            }
            if str_eq(property, "text-emphasis") || str_eq(property, "-webkit-text-emphasis") {
                style.text_emphasis = Some(value.to_owned());
            }
            if str_eq(property, "ruby-position") {
                style.ruby_position = Some(value.to_owned());
            }
            if str_eq(property, "ruby-align") {
                style.ruby_align = Some(value.to_owned());
            }
            if str_eq(property, "line-break") {
                style.line_break = Some(value.to_owned());
            }
            if str_eq(property, "word-break") {
                style.word_break = Some(value.to_owned());
            }
            i = i + 1;
        }
        style
    }
}

impl StyleSheet {
    /// The computed style of every rule, in order.
    pub fn computed_styles(&self) -> (r: Vec<ComputedStyle>)
        ensures
            r@.len() == self.rules@.len(),
            forall|i: int| 0 <= i < r@.len() ==> style_of(#[trigger] r@[i], self.rules@[i]),
    {
        let mut r: Vec<ComputedStyle> = Vec::new();
        let mut i: usize = 0;
        while i < self.rules.len()
            invariant
                i <= self.rules@.len(),
                r@.len() == i,
                forall|j: int| 0 <= j < i ==> style_of(#[trigger] r@[j], self.rules@[j]),
            decreases self.rules@.len() - i,
        {
            r.push(ComputedStyle::from_rule(&self.rules[i]));
            i = i + 1;
        }
        r
    }
}

} // verus!
