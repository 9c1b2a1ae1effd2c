//! The keywords of a schema, and what can be wrong with one.

use vstd::prelude::*;

verus! {

/// The keywords that the compiler knows.
#[derive(Clone, Copy, Debug, PartialEq, Eq, Structural)]
pub enum Keyword {
    Ref,
    Type,
    Enum,
    Const,
    MultipleOf,
    Maximum,
    ExclusiveMaximum,
    Minimum,
    ExclusiveMinimum,
    MaxLength,
    MinLength,
    Pattern,
    Items,
    AdditionalItems,
    Contains,
    MaxItems,
    MinItems,
    UniqueItems,
    MaxProperties,
    MinProperties,
    Required,
    Properties,
    PatternProperties,
    AdditionalProperties,
    Dependencies,
    PropertyNames,
    If,
    Then,
    Else,
    AllOf,
    AnyOf,
    OneOf,
    Not,
}

impl Keyword {
    /// The name under which the keyword stands in a schema.
    pub open spec fn name(self) -> Seq<char> {
        match self {
            Keyword::Ref => "$ref"@,
            Keyword::Type => "type"@,
            Keyword::Enum => "enum"@,
            Keyword::Const => "const"@,
            Keyword::MultipleOf => "multipleOf"@,
            Keyword::Maximum => "maximum"@,
            Keyword::ExclusiveMaximum => "exclusiveMaximum"@,
            Keyword::Minimum => "minimum"@,
            Keyword::ExclusiveMinimum => "exclusiveMinimum"@,
            Keyword::MaxLength => "maxLength"@,
            Keyword::MinLength => "minLength"@,
            Keyword::Pattern => "pattern"@,
            Keyword::Items => "items"@,
            Keyword::AdditionalItems => "additionalItems"@,
            Keyword::Contains => "contains"@,
            Keyword::MaxItems => "maxItems"@,
            Keyword::MinItems => "minItems"@,
            Keyword::UniqueItems => "uniqueItems"@,
            Keyword::MaxProperties => "maxProperties"@,
            Keyword::MinProperties => "minProperties"@,
            Keyword::Required => "required"@,
            Keyword::Properties => "properties"@,
            Keyword::PatternProperties => "patternProperties"@,
            Keyword::AdditionalProperties => "additionalProperties"@,
            Keyword::Dependencies => "dependencies"@,
            Keyword::PropertyNames => "propertyNames"@,
            Keyword::If => "if"@,
            Keyword::Then => "then"@,
            Keyword::Else => "else"@,
            Keyword::AllOf => "allOf"@,
            Keyword::AnyOf => "anyOf"@,
            Keyword::OneOf => "oneOf"@,
            Keyword::Not => "not"@,
        }
    }

    /// The name under which the keyword stands in a schema.
    pub fn text(self) -> (r: &'static str)
        ensures
            r@ == self.name(),
    {
        match self {
            Keyword::Ref => "$ref",
            Keyword::Type => "type",
            Keyword::Enum => "enum",
            Keyword::Const => "const",
            Keyword::MultipleOf => "multipleOf",
            Keyword::Maximum => "maximum",
            Keyword::ExclusiveMaximum => "exclusiveMaximum",
            Keyword::Minimum => "minimum",
            Keyword::ExclusiveMinimum => "exclusiveMinimum",
            Keyword::MaxLength => "maxLength",
            Keyword::MinLength => "minLength",
            Keyword::Pattern => "pattern",
            Keyword::Items => "items",
            Keyword::AdditionalItems => "additionalItems",
            Keyword::Contains => "contains",
            Keyword::MaxItems => "maxItems",
            Keyword::MinItems => "minItems",
            Keyword::UniqueItems => "uniqueItems",
            Keyword::MaxProperties => "maxProperties",
            Keyword::MinProperties => "minProperties",
            Keyword::Required => "required",
            Keyword::Properties => "properties",
            Keyword::PatternProperties => "patternProperties",
            Keyword::AdditionalProperties => "additionalProperties",
            Keyword::Dependencies => "dependencies",
            Keyword::PropertyNames => "propertyNames",
            Keyword::If => "if",
            Keyword::Then => "then",
            Keyword::Else => "else",
            Keyword::AllOf => "allOf",
            Keyword::AnyOf => "anyOf",
            Keyword::OneOf => "oneOf",
            Keyword::Not => "not",
        }
    }
}

/// How many keywords contribute a rule of their own to the conjunction that
/// a schema object stands for.
pub open spec fn family_count() -> nat {
    27
}

/// The keywords that contribute a rule of their own, in the order in which
/// their rules stand in the conjunction. The keywords that only qualify
/// another one (`additionalItems`, `patternProperties`,
/// `additionalProperties`, `then`, `else`) are handled with the keyword they
/// qualify.
pub open spec fn family(k: nat) -> Keyword {
    if k == 0 {
        Keyword::Type
    } else if k == 1 {
        Keyword::Enum
    } else if k == 2 {
        Keyword::Const
    } else if k == 3 {
        Keyword::MultipleOf
    } else if k == 4 {
        Keyword::Maximum
    } else if k == 5 {
        Keyword::ExclusiveMaximum
    } else if k == 6 {
        Keyword::Minimum
    } else if k == 7 {
        Keyword::ExclusiveMinimum
    } else if k == 8 {
        Keyword::MaxLength
    } else if k == 9 {
        Keyword::MinLength
    } else if k == 10 {
        Keyword::Pattern
    } else if k == 11 {
        Keyword::Items
    } else if k == 12 {
        Keyword::Contains
    } else if k == 13 {
        Keyword::MaxItems
    } else if k == 14 {
        Keyword::MinItems
    } else if k == 15 {
        Keyword::UniqueItems
    } else if k == 16 {
        Keyword::MaxProperties
    } else if k == 17 {
        Keyword::MinProperties
    } else if k == 18 {
        Keyword::Required
    } else if k == 19 {
        Keyword::Properties
    } else if k == 20 {
        Keyword::Dependencies
    } else if k == 21 {
        Keyword::PropertyNames
    } else if k == 22 {
        Keyword::If
    } else if k == 23 {
        Keyword::AllOf
    } else if k == 24 {
        Keyword::AnyOf
    } else if k == 25 {
        Keyword::OneOf
    } else {
        Keyword::Not
    }
}

/// The number of keywords that contribute a rule of their own.
pub fn families() -> (r: usize)
    ensures
        r == family_count(),
{
    27
}

/// Keyword `k` of those that contribute a rule of their own.
pub fn family_at(k: usize) -> (r: Keyword)
    ensures
        r == family(k as nat),
{
    if k == 0 {
        Keyword::Type
    } else if k == 1 {
        Keyword::Enum
    } else if k == 2 {
        Keyword::Const
    } else if k == 3 {
        Keyword::MultipleOf
    } else if k == 4 {
        Keyword::Maximum
    } else if k == 5 {
        Keyword::ExclusiveMaximum
    } else if k == 6 {
        Keyword::Minimum
    } else if k == 7 {
        Keyword::ExclusiveMinimum
    } else if k == 8 {
        Keyword::MaxLength
    } else if k == 9 {
        Keyword::MinLength
    } else if k == 10 {
        Keyword::Pattern
    } else if k == 11 {
        Keyword::Items
    } else if k == 12 {
        Keyword::Contains
    } else if k == 13 {
        Keyword::MaxItems
    } else if k == 14 {
        Keyword::MinItems
    } else if k == 15 {
        Keyword::UniqueItems
    } else if k == 16 {
        Keyword::MaxProperties
    } else if k == 17 {
        Keyword::MinProperties
    } else if k == 18 {
        Keyword::Required
    } else if k == 19 {
        Keyword::Properties
    } else if k == 20 {
        Keyword::Dependencies
    } else if k == 21 {
        Keyword::PropertyNames
    } else if k == 22 {
        Keyword::If
    } else if k == 23 {
        Keyword::AllOf
    } else if k == 24 {
        Keyword::AnyOf
    } else if k == 25 {
        Keyword::OneOf
    } else {
        Keyword::Not
    }
}

/// What is wrong with a schema.
#[derive(Clone, Copy, Debug, PartialEq, Eq, Structural)]
pub enum ErrorKind {
    /// A value stands where a schema is expected and is neither a boolean
    /// nor an object.
    NotASchema,
    /// The value of a keyword is not of the form that the keyword takes.
    Malformed,
    /// The keyword is known, but this value of it cannot be compiled.
    Unsupported,
    /// The reference does not lead to a value in a known document.
    UnresolvedReference,
}

/// One step on the way from the root of a document to a value in it.
pub enum PathStep {
    /// Into the member of this name.
    Key(Seq<char>),
    /// Into the element at this index.
    Index(nat),
}

/// A schema that cannot be compiled: what is wrong, with which keyword, and
/// where the schema object that holds the keyword stands.
pub struct Fault {
    pub kind: ErrorKind,
    pub keyword: Option<Keyword>,
    pub location: Seq<PathStep>,
}

impl Fault {
    /// The same fault, seen from one step further out.
    pub open spec fn under(self, step: PathStep) -> Fault {
        Fault { kind: self.kind, keyword: self.keyword, location: seq![step] + self.location }
    }
}

/// A fault of `keyword` in the schema at hand.
pub open spec fn fault(kind: ErrorKind, keyword: Keyword) -> Fault {
    Fault { kind, keyword: Some(keyword), location: Seq::empty() }
}

/// The outcome `r`, with the place of a fault seen from one step further out.
pub open spec fn under<T>(r: Result<T, Fault>, step: PathStep) -> Result<T, Fault> {
    match r {
        Ok(value) => Ok(value),
        Err(f) => Err(f.under(step)),
    }
}

/// One step on the way from the root of a document to a value in it.
#[derive(Debug)]
pub enum Step {
    Key(String),
    Index(usize),
}

impl View for Step {
    type V = PathStep;

    open spec fn view(&self) -> PathStep {
        match self {
            Step::Key(name) => PathStep::Key(name@),
            Step::Index(i) => PathStep::Index(*i as nat),
        }
    }
}

/// A schema that cannot be compiled.
#[derive(Debug)]
pub struct CompileError {
    pub kind: ErrorKind,
    pub keyword: Option<Keyword>,
    pub location: Vec<Step>,
}

impl View for CompileError {
    type V = Fault;

    open spec fn view(&self) -> Fault {
        Fault {
            kind: self.kind,
            keyword: self.keyword,
            location: Seq::new(self.location@.len(), |i: int| self.location@[i]@),
        }
    }
}

impl CompileError {
    /// A fault of `keyword` in the schema at hand.
    pub fn new(kind: ErrorKind, keyword: Keyword) -> (r: CompileError)
        ensures
            r@ == fault(kind, keyword),
    {
        let r = CompileError { kind, keyword: Some(keyword), location: Vec::new() };
        assert(r@.location =~= Seq::empty());
        r
    }

    /// The same error, seen from one step further out.
    pub fn under(self, step: Step) -> (r: CompileError)
        ensures
            r@ == self@.under(step@),
    {
        let mut location = self.location;
        let ghost before = location@;
        location.insert(0, step);
        let r = CompileError { kind: self.kind, keyword: self.keyword, location };
        assert(r@.location =~= seq![step@] + self@.location);
        r
    }
}

} // verus!
