//! The typed syntax tree that the parsing collaborator hands to resolution.
//! Every node carries the source span it was read from; identifiers are plain
//! strings and byte literals are already decoded into `bytes::Bytes`.
use vstd::prelude::*;

use crate::Span;

verus! {

/// A syntax node together with the source span it covers.
#[derive(Clone, Debug)]
pub struct Located<T> {
    pub span: Span,
    pub inner: T,
}

/// An identifier.
#[derive(Clone, Debug)]
pub struct RVariable(pub String);

impl RVariable {
    pub fn as_str(&self) -> (r: &str)
        ensures
            r@ == self.0@,
    {
        self.0.as_str()
    }
}

/// An identifier qualified by a field selector, `base.field`.
#[derive(Clone, Debug)]
pub struct RVariableWithField {
    pub variable: Located<RVariable>,
    pub field: Located<RVariable>,
}

/// An identifier, or one qualified by a field selector.
#[derive(Clone, Debug)]
pub enum RVariableOrVariableWithField {
    Variable(RVariable),
    VariableWithField(RVariableWithField),
}

/// A raw byte literal, already decoded from its hexadecimal spelling.
#[derive(Clone, Debug)]
pub struct RHexLitteral(pub bytes::Bytes);

/// A string literal.
#[derive(Clone, Debug)]
pub struct RStringLitteral(pub String);

/// A literal: either bytes or a string.
#[derive(Clone, Debug)]
pub enum RHexOrStringLitteral {
    Hex(RHexLitteral),
    Str(RStringLitteral),
}

/// A `name = literal` pair, as it appears in attribute arguments.
#[derive(Clone, Debug)]
pub struct REquality {
    pub name: Located<RVariable>,
    pub value: Located<RHexOrStringLitteral>,
}

/// The argument of an attribute.
#[derive(Clone, Debug)]
pub enum RAttributeArg {
    Variable(RVariable),
    Litteral(RHexOrStringLitteral),
    Equality(REquality),
}

/// An annotation `name` or `name(arg)` attached to a contract or a block.
#[derive(Clone, Debug)]
pub struct RAttribute {
    pub name: Located<RVariable>,
    pub arg: Option<Located<RAttributeArg>>,
}

/// A syntax node together with the attributes written above it.
#[derive(Clone, Debug)]
pub struct WithAttributes<T> {
    pub attributes: Vec<Located<RAttribute>>,
    pub inner: Located<T>,
}

impl<T> WithAttributes<T> {
    pub fn inner_located(&self) -> (r: &Located<T>)
        ensures
            r == &self.inner,
    {
        &self.inner
    }

    pub fn inner(&self) -> (r: &T)
        ensures
            r == &self.inner.inner,
    {
        &self.inner_located().inner
    }
}

/// The argument of a push-style function call.
#[derive(Clone, Debug)]
pub enum RFunctionArg {
    HexLitteral(RHexLitteral),
    Variable(RVariable),
    VariableWithField(RVariableWithField),
}

/// A function call `name(arg)` appearing as a block item.
#[derive(Clone, Debug)]
pub struct RFunction {
    pub name: Located<RVariable>,
    pub arg: Located<RFunctionArg>,
}

/// A named constant declaration of a contract.
#[derive(Clone, Debug)]
pub struct RConstant {
    pub name: Located<RVariable>,
    pub value: Located<RHexLitteral>,
}

impl RConstant {
    pub fn name_str(&self) -> (r: &str)
        ensures
            r@ == self.name.inner.0@,
    {
        self.name.inner.as_str()
    }
}

/// A reference to another block: inlined (`*name`) or addressed
/// (`&name`, possibly with a field selector).
#[derive(Clone, Debug)]
pub enum RBlockRef {
    Star(RVariable),
    Esp(RVariableOrVariableWithField),
}

/// One item of a block's body.
#[derive(Clone, Debug)]
pub enum RBlockItem {
    HexLitteral(RHexLitteral),
    BlockRef(RBlockRef),
    Variable(RVariable),
    Function(RFunction),
}

/// A named, reusable sequence of items within a contract.
#[derive(Clone, Debug)]
pub struct RBlock {
    pub name: Located<RVariable>,
    pub items: Vec<Located<RBlockItem>>,
}

impl RBlock {
    pub fn name_str(&self) -> (r: &str)
        ensures
            r@ == self.name.inner.0@,
    {
        self.name.inner.as_str()
    }
}

/// A named top-level unit: constants and blocks.
#[derive(Clone, Debug)]
pub struct RContract {
    pub name: Located<RVariable>,
    pub constants: Vec<Located<RConstant>>,
    pub blocks: Vec<Located<WithAttributes<RBlock>>>,
}

impl RContract {
    pub fn name_str(&self) -> (r: &str)
        ensures
            r@ == self.name.inner.0@,
    {
        self.name.inner.as_str()
    }
}

/// A whole source file: the list of contracts, in source order.
#[derive(Clone, Debug)]
pub struct RFile(pub Vec<Located<WithAttributes<RContract>>>);

} // verus!
