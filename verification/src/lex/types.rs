//! The lexemes and tokens that the lexer produces.

use vstd::prelude::*;

verus! {

/// The index of a form; forms are numbered from 1 in the order they start,
/// and 0 stands for the top level.
pub type Ix = u32;

/// Failure to lex the input: the position (in characters) where no lexeme
/// could be read.
#[derive(Debug, Clone, Copy, PartialEq, Eq, Structural)]
pub struct Error {
    pub pos: usize,
}

/// A lexeme: a token, where it comes from, and its place in the nesting of
/// forms.
#[derive(Clone, Debug)]
pub struct Lexeme {
    /// The form that contains this lexeme's form.
    pub parent_ix: Ix,
    /// The form this lexeme belongs to.
    pub form_ix: Ix,
    pub token: Token,
    pub source: Option<Source>,
}

/// Where a lexeme comes from: its line and column (both from 1) and its
/// text.
#[derive(Clone, Debug)]
pub struct Source {
    pub line: u32,
    pub column: u32,
    pub str: String,
}

#[derive(Clone, Debug)]
pub enum Token {
    Whitespace,
    Comment,
    Meta {
        metaform_ix: Ix,
        subform_ix: Ix,
    },
    Discard,
    Quote,
    VarQuote,
    Synquote,
    Unquote,
    SplicingUnquote,
    Nil,
    Boolean {
        value: bool,
    },
    Numeric {
        class: NumberClass,
        value: NumericValue,
    },
    Char {
        syntax: CharSyntax,
        value: char,
    },
    String {
        raw_value: String,
        value: Vec<StringFragment>,
    },
    Regex {
        raw_value: String,
    },
    SymbolicValuePrefix,
    SymbolicValue {
        value: SymbolicValue,
    },
    Symbol {
        namespace: Option<String>,
        name: String,
    },
    /// The tag of a tagged literal: a symbol, kept apart from ordinary symbols
    /// for the benefit of, for example, syntax coloring.
    Tag {
        namespace: Option<String>,
        name: String,
    },
    Keyword {
        alias: bool,
        namespace: Option<String>,
        name: String,
    },
    StartList,
    EndList,
    StartVector,
    EndVector,
    StartSet,
    EndSet,
    MapQualifier {
        alias: bool,
        namespace: Option<String>,
    },
    StartMap,
    EndMap,
    StartAnonymousFn,
    EndAnonymousFn,
    ReaderConditionalPrefix {
        splicing: bool,
    },
    StartReaderConditional,
    EndReaderConditional,
    TaggedLiteral {
        tag_ix: Ix,
        arg_ix: Ix,
    },
    Residual {
        pair: String,
        ploc: ParserLoc,
    },
}

/// The grammatical context of a residual (unrecognized) piece of input.
#[derive(Clone, Copy, Debug, PartialEq, Eq, Structural)]
pub enum ParserLoc {
    TopLevel,
    Form,
    QuoteUnquoteForm,
    Preforms,
    DiscardedForm,
    MetaForm,
    Expr,
    Char,
    Number,
    UnsignedRatio,
    UnsignedRadixInt,
    UnsignedInt,
    String,
    Regex,
    SymbolicValue,
    Symbol,
    Tag,
    Keyword,
    MapForm,
    MapQualifier,
    ReaderConditional,
    Body,
    TaggedLiteralTag,
    TaggedLiteralValue,
}

/// How a character literal was written.
#[derive(Clone, Copy, Debug, PartialEq, Eq, Structural)]
pub enum CharSyntax {
    Name,
    Octal,
    CodePoint,
    Simple,
}

/// The value of a `##` literal.
#[derive(Clone, Debug, PartialEq, Eq)]
pub enum SymbolicValue {
    PosInf,
    NegInf,
    NaN,
    Other(String),
}

/// The digits of a numeric literal.
#[derive(Clone, Debug, PartialEq, Eq)]
pub enum NumericValue {
    Int {
        positive: bool,
        radix: u32,
        value: String,
    },
    Float {
        value: String,
    },
    Fraction {
        positive: bool,
        numerator: String,
        denominator: String,
    },
}

/// Number class as recognized by Clojure.
#[derive(Clone, Copy, Debug, PartialEq, Eq, Structural)]
pub enum NumberClass {
    Long,
    Double,
    BigInt,
    BigDecimal,
    Ratio,
}

/// A piece of a string literal: literal text, or the code of an escape.
#[derive(Clone, Debug, PartialEq, Eq)]
pub enum StringFragment {
    Unescaped { value: String },
    Escaped { code: u32 },
}

} // verus!
