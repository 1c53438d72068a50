use vstd::prelude::*;

verus! {

/// The closed set of template kinds a new project can be created from.
#[derive(Clone, Copy, Debug, PartialEq, Eq, Structural)]
pub enum TemplateCategory {
    TwoD,
    ThreeD,
}

/// The tag by which a category is requested.
pub open spec fn category_tag(c: TemplateCategory) -> Seq<char> {
    match c {
        TemplateCategory::TwoD => seq!['2', 'd'],
        TemplateCategory::ThreeD => seq!['3', 'd'],
    }
}

/// The category whose tag is `s`, if any.
pub open spec fn category_of(s: Seq<char>) -> Option<TemplateCategory> {
    if s == category_tag(TemplateCategory::TwoD) {
        Some(TemplateCategory::TwoD)
    } else if s == category_tag(TemplateCategory::ThreeD) {
        Some(TemplateCategory::ThreeD)
    } else {
        None
    }
}

fn is_tag(s: &str, a: char, b: char) -> (r: bool)
    ensures
        r == (s@ == seq![a, b]),
{
    if s.unicode_len() != 2 {
        return false;
    }
    let c0 = s.get_char(0);
    let c1 = s.get_char(1);
    if c0 == a && c1 == b {
        assert(s@ =~= seq![a, b]);
        true
    } else {
        false
    }
}

/// Reads a category tag; anything outside the recognized set is `None`.
pub fn parse_category(s: &str) -> (r: Option<TemplateCategory>)
    ensures
        r == category_of(s@),
{
    if is_tag(s, '2', 'd') {
        Some(TemplateCategory::TwoD)
    } else if is_tag(s, '3', 'd') {
        Some(TemplateCategory::ThreeD)
    } else {
        None
    }
}

} // verus!
