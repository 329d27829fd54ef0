//! The markup classifier: a paragraph's style-code string is mapped to one
//! of a closed set of semantic roles, in a fixed precedence order.

use vstd::prelude::*;

use crate::text::{str_contains_char, str_eq};

verus! {

/// The semantic role of a paragraph, decided by its style code alone.
#[derive(PartialEq, Eq, Structural, Clone, Copy, Debug)]
pub enum Role {
    /// A numbered sense definition.
    Sense,
    /// A compound-form header opening a new list of meanings.
    Header,
    /// One meaning line under the current compound form.
    Meaning,
    /// A same-entry or redirect link.
    EntryLink,
    /// Any other cross-reference link.
    OtherLink,
    /// No known role: the markup no longer matches the assumed grammar.
    Unrecognized,
}

/// The precedence-ordered matching rules: a style containing `j` is a
/// sense; exactly `k5` or `k6` a header; exactly `m` a meaning; exactly
/// `l2` a same-entry link; any other style containing `l` another link.
/// A style satisfying several predicates takes the first matching rule.
pub open spec fn spec_classify(style: Seq<char>) -> Role {
    if style.contains('j') {
        Role::Sense
    } else if style == "k5"@ || style == "k6"@ {
        Role::Header
    } else if style == "m"@ {
        Role::Meaning
    } else if style == "l2"@ {
        Role::EntryLink
    } else if style.contains('l') {
        Role::OtherLink
    } else {
        Role::Unrecognized
    }
}

/// Decides `spec_classify`.
pub fn classify(style: &str) -> (r: Role)
    ensures
        r == spec_classify(style@),
{
    if str_contains_char(style, 'j') {
        Role::Sense
    } else if str_eq(style, "k5") || str_eq(style, "k6") {
        Role::Header
    } else if str_eq(style, "m") {
        Role::Meaning
    } else if str_eq(style, "l2") {
        Role::EntryLink
    } else if str_contains_char(style, 'l') {
        Role::OtherLink
    } else {
        Role::Unrecognized
    }
}

} // verus!
