use vstd::prelude::*;
use crate::instr::strings_view;

verus! {

/// A template that could not be compiled; positions are byte offsets.
#[derive(Debug, PartialEq, Eq)]
pub enum ParseError {
    Expected(usize, String),
    Unexpected(usize, String),
}

/// The mathematical form of a `ParseError`.
pub ghost enum ParseFailure {
    Expected(nat, Seq<char>),
    Unexpected(nat, Seq<char>),
}

impl ParseError {
    pub open spec fn view(&self) -> ParseFailure {
        match self {
            ParseError::Expected(pos, token) => ParseFailure::Expected(*pos as nat, token@),
            ParseError::Unexpected(pos, token) => ParseFailure::Unexpected(*pos as nat, token@),
        }
    }
}

/// A context that does not supply what a template asks for.
#[derive(Debug, PartialEq, Eq)]
pub enum RenderError {
    CannotIterate(String),
    CannotResolve(Vec<String>),
}

/// The mathematical form of a `RenderError`.
pub ghost enum RenderFailure {
    CannotIterate(Seq<char>),
    CannotResolve(Seq<Seq<char>>),
}

impl RenderError {
    pub open spec fn view(&self) -> RenderFailure {
        match self {
            RenderError::CannotIterate(key) => RenderFailure::CannotIterate(key@),
            RenderError::CannotResolve(path) => RenderFailure::CannotResolve(strings_view(path@)),
        }
    }
}

} // verus!
