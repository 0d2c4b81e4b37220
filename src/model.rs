//! The statements that the store holds: entities, attributes and values.
use vstd::prelude::*;
use crate::error::LigatureSledError;

verus! {

/// A resource, identified by an id that its dataset allocated.
#[derive(Debug, Clone, Copy, PartialEq, Eq, Structural)]
pub struct Entity(pub u64);

/// A first character of an attribute name: an ASCII letter or `_`.
pub open spec fn is_name_start(c: char) -> bool {
    ('a' <= c && c <= 'z') || ('A' <= c && c <= 'Z') || c == '_'
}

/// A later character of an attribute name: an ASCII letter, digit or `_`.
pub open spec fn is_name_char(c: char) -> bool {
    is_name_start(c) || ('0' <= c && c <= '9')
}

/// The shape of an attribute name: `[a-zA-Z_][a-zA-Z0-9_]*`.
pub open spec fn valid_attribute_name(s: Seq<char>) -> bool {
    &&& s.len() > 0
    &&& is_name_start(s[0])
    &&& forall|i: int| 1 <= i < s.len() ==> is_name_char(#[trigger] s[i])
}

/// Relies on ligature::Attribute::new, which accepts a name iff it matches
/// `^[a-zA-Z_]{1}[a-zA-Z0-9_]*$`.
#[verifier::external_body]
fn attribute_name_is_valid(name: &str) -> (r: bool)
    ensures
        r == valid_attribute_name(name@),
{
    ligature::Attribute::new(name).is_ok()
}

/// A named predicate.
#[derive(Debug, PartialEq, Eq)]
pub struct Attribute {
    name: String,
}

impl View for Attribute {
    type V = Seq<char>;

    closed spec fn view(&self) -> Seq<char> {
        self.name@
    }
}

impl Clone for Attribute {
    fn clone(&self) -> (res: Self)
        ensures
            res == *self,
    {
        Attribute { name: self.name.clone() }
    }
}

impl Attribute {
    /// Makes an attribute of a well-formed name.
    pub fn new(name: &str) -> (res: Result<Attribute, LigatureSledError>)
        ensures
            res.is_ok() == valid_attribute_name(name@),
            res matches Ok(a) ==> a@ == name@,
            res matches Err(e) ==> e == LigatureSledError::InvalidAttribute,
    {
        if attribute_name_is_valid(name) {
            Ok(Attribute { name: name.to_owned() })
        } else {
            Err(LigatureSledError::InvalidAttribute)
        }
    }

    /// The attribute's name.
    pub fn name(&self) -> (res: &str)
        ensures
            res@ == self@,
    {
        self.name.as_str()
    }
}

/// The object of a statement.
#[derive(Debug, PartialEq)]
pub enum Value {
    /// A reference to an entity.
    Entity(Entity),
    /// A text literal, interned by the store.
    StringLiteral(String),
    /// An integer literal.
    IntegerLiteral(i64),
    /// A float literal, held as its IEEE-754 bit pattern.
    FloatLiteral(u64),
}

impl Clone for Value {
    fn clone(&self) -> (res: Self)
        ensures
            res == *self,
    {
        match self {
            Value::Entity(e) => Value::Entity(*e),
            Value::StringLiteral(s) => Value::StringLiteral(s.clone()),
            Value::IntegerLiteral(i) => Value::IntegerLiteral(*i),
            Value::FloatLiteral(f) => Value::FloatLiteral(*f),
        }
    }
}

/// A fact: an entity, an attribute and a value.
#[derive(Debug, PartialEq)]
pub struct Statement {
    pub entity: Entity,
    pub attribute: Attribute,
    pub value: Value,
}

impl Clone for Statement {
    fn clone(&self) -> (res: Self)
        ensures
            res == *self,
    {
        Statement {
            entity: self.entity,
            attribute: self.attribute.clone(),
            value: self.value.clone(),
        }
    }
}

/// A statement as stored, with the context entity that tags this assertion.
#[derive(Debug, PartialEq)]
pub struct PersistedStatement {
    pub statement: Statement,
    pub context: Entity,
}

impl Clone for PersistedStatement {
    fn clone(&self) -> (res: Self)
        ensures
            res == *self,
    {
        PersistedStatement { statement: self.statement.clone(), context: self.context }
    }
}

/// A half-open range of literal values, from `start` (included) to `end` (excluded).
#[derive(Debug)]
#[allow(inconsistent_fields)]
pub enum Range {
    /// Texts, in the byte order of their UTF-8 encodings.
    StringLiteralRange { start: String, end: String },
    /// Integers, in numeric order.
    IntegerLiteralRange { start: i64, end: i64 },
    /// Floats, given as bit patterns, in numeric order.
    FloatLiteralRange { start: u64, end: u64 },
}

} // verus!
