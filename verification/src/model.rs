//! The value shapes of a lookup result, the outcome variants, and the
//! errors that a structural violation of the source markup raises.

use vstd::prelude::*;

use crate::dict::Dict;

verus! {

/// A leaf value inside one entry: a single string, or an ordered list of
/// strings.  The shape is fixed when the key is first created.
pub enum Value {
    List(Vec<String>),
    Unique(String),
}

/// The mathematical shape of a [`Value`].
pub enum ValueModel {
    List(Seq<Seq<char>>),
    Unique(Seq<char>),
}

impl View for Value {
    type V = ValueModel;

    open spec fn view(&self) -> ValueModel {
        match self {
            Value::List(items) => ValueModel::List(items.deep_view()),
            Value::Unique(s) => ValueModel::Unique(s@),
        }
    }
}

/// One entry node of the result mapping: a plain string (reserved for an
/// entry-level redirect when the entry holds nothing else), a mapping from
/// sense numbers and compound-form headers to values, or a flat list of
/// strings (the top-level cross-reference list).
pub enum ValueVariant {
    String(String),
    Mapping(Dict<Value>),
    List(Vec<String>),
}

/// The mathematical shape of a [`ValueVariant`].
pub enum VariantModel {
    String(Seq<char>),
    Mapping(Seq<(Seq<char>, ValueModel)>),
    List(Seq<Seq<char>>),
}

impl View for ValueVariant {
    type V = VariantModel;

    open spec fn view(&self) -> VariantModel {
        match self {
            ValueVariant::String(s) => VariantModel::String(s@),
            ValueVariant::Mapping(d) => VariantModel::Mapping(d@),
            ValueVariant::List(items) => VariantModel::List(items.deep_view()),
        }
    }
}

impl ValueVariant {
    /// A mapping node keeps its entries sorted.
    pub open spec fn wf(&self) -> bool {
        match self {
            ValueVariant::Mapping(d) => d.wf(),
            _ => true,
        }
    }
}

/// A violation of the structural assumptions about the source markup.
/// These are raised loudly instead of producing a partially built tree.
#[derive(PartialEq, Eq, Structural, Clone, Copy, Debug)]
pub enum WebScrapError {
    /// A paragraph carries no style attribute.
    MissingStyle,
    /// A paragraph's style matches none of the known roles.
    UnknownStyle,
    /// A sense paragraph has no `.` separating number and definition.
    MissingSeparator,
    /// A meaning paragraph appeared before any compound-form header.
    MeaningWithoutHeader,
    /// A link paragraph has no anchor, or the suggestion anchor has no text.
    MissingAnchor,
    /// An anchor carries no `href` attribute.
    MissingHref,
}

/// What a lookup decided: the entry tree for a word that was found, the
/// not-found notice, or a suggested alternate word.
pub enum Outcome {
    Found(Dict<ValueVariant>),
    NotFound,
    Ambiguous(String),
}

/// The mathematical shape of an [`Outcome`].
pub enum OutcomeModel {
    Found(Seq<(Seq<char>, VariantModel)>),
    NotFound,
    Ambiguous(Seq<char>),
}

impl Outcome {
    /// The result mapping of a found word keeps its entries sorted.
    pub open spec fn wf(&self) -> bool {
        match self {
            Outcome::Found(d) => d.wf(),
            _ => true,
        }
    }
}

impl View for Outcome {
    type V = OutcomeModel;

    open spec fn view(&self) -> OutcomeModel {
        match self {
            Outcome::Found(d) => OutcomeModel::Found(d@),
            Outcome::NotFound => OutcomeModel::NotFound,
            Outcome::Ambiguous(s) => OutcomeModel::Ambiguous(s@),
        }
    }
}

} // verus!
