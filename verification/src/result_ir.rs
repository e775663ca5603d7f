//! The values that results are made of, built from lexemes.
//!
//! A result printed by Clojure is EDN-like: scalars, symbols and keywords,
//! collections, tagged literals and var-quoted symbols.  `build` reads the
//! lexemes of one such result into a value tree, using a stack of partly
//! built composite values.

use vstd::prelude::*;

use crate::lex::{Lexeme, Token};

verus! {

/// A result value.
#[derive(Debug)]
pub enum Value {
    Nil,
    Number { literal: String },
    String { literal: String },
    Boolean { value: bool },
    SymbolicValue { literal: String },
    Symbol { namespace: Option<String>, name: String },
    Keyword { namespace: Option<String>, name: String, alias: bool },
    TaggedLiteral { namespace: Option<String>, name: String, value: Box<Value> },
    VarQuoted { namespace: Option<String>, name: String },
    List { values: Vec<Value> },
    Vector { values: Vec<Value> },
    SetColl { values: Vec<Value> },
    MapColl { entries: Vec<MapEntry> },
}

/// A key and its value in a map.
#[derive(Debug)]
pub struct MapEntry {
    pub key: Value,
    pub value: Value,
}

/// Why the lexemes do not make exactly one value.
#[derive(Debug, Clone, Copy, PartialEq, Eq, Structural)]
pub enum BuildError {
    TooFewTopLevelValues,
    TooManyTopLevelValues,
    RunawayCollection,
    InconsistentCollections,
    IncompleteMapEntry,
    ExpectedTagForTaggedLiteral,
    ExpectedValueForTaggedLiteral,
    IncompleteTaggedLiteral,
    UnexpectedLiteralTag,
    ExpectedSymbolForLiteralTag,
    ExpectedSymbolForVarQuote,
}

/// The contents of a value.
pub enum ValueView {
    Nil,
    Number(Seq<char>),
    String(Seq<char>),
    Boolean(bool),
    SymbolicValue(Seq<char>),
    Symbol(Option<Seq<char>>, Seq<char>),
    Keyword(Option<Seq<char>>, Seq<char>, bool),
    TaggedLiteral(Option<Seq<char>>, Seq<char>, Box<ValueView>),
    VarQuoted(Option<Seq<char>>, Seq<char>),
    ListOf(Seq<ValueView>),
    VectorOf(Seq<ValueView>),
    SetOf(Seq<ValueView>),
    MapOf(Seq<(ValueView, ValueView)>),
}

pub open spec fn opt_view(s: Option<String>) -> Option<Seq<char>> {
    match s {
        Some(t) => Some(t@),
        None => None,
    }
}

pub open spec fn value_view(v: Value) -> ValueView
    decreases v,
{
    match v {
        Value::Nil => ValueView::Nil,
        Value::Number { literal } => ValueView::Number(literal@),
        Value::String { literal } => ValueView::String(literal@),
        Value::Boolean { value } => ValueView::Boolean(value),
        Value::SymbolicValue { literal } => ValueView::SymbolicValue(literal@),
        Value::Symbol { namespace, name } => ValueView::Symbol(opt_view(namespace), name@),
        Value::Keyword { namespace, name, alias } => ValueView::Keyword(
            opt_view(namespace),
            name@,
            alias,
        ),
        Value::TaggedLiteral { namespace, name, value } => ValueView::TaggedLiteral(
            opt_view(namespace),
            name@,
            Box::new(value_view(*value)),
        ),
        Value::VarQuoted { namespace, name } => ValueView::VarQuoted(opt_view(namespace), name@),
        Value::List { values } => ValueView::ListOf(values_view(values@)),
        Value::Vector { values } => ValueView::VectorOf(values_view(values@)),
        Value::SetColl { values } => ValueView::SetOf(values_view(values@)),
        Value::MapColl { entries } => ValueView::MapOf(entries_view(entries@)),
    }
}

pub open spec fn values_view(s: Seq<Value>) -> Seq<ValueView>
    decreases s,
{
    Seq::new(
        s.len(),
        |i: int|
            if 0 <= i < s.len() {
                value_view(s[i])
            } else {
                ValueView::Nil
            },
    )
}

pub open spec fn entries_view(s: Seq<MapEntry>) -> Seq<(ValueView, ValueView)>
    decreases s,
{
    Seq::new(
        s.len(),
        |i: int|
            if 0 <= i < s.len() {
                (value_view(s[i].key), value_view(s[i].value))
            } else {
                (ValueView::Nil, ValueView::Nil)
            },
    )
}

/// The kinds of composite values that are read at the level of syntax.
#[derive(Clone, Copy, Debug, PartialEq, Eq, Structural)]
pub enum CompositeType {
    ListType,
    VectorType,
    SetType,
    MapType,
    /// A tagged literal: a symbol tag and any value.
    TaggedLiteralType,
    /// A var-quoted symbol.
    VarQuotedType,
    /// The whole result, which must be exactly one value.
    TopLevelType,
}

/// A partly built composite value.
pub enum FrameView {
    TopLevel(Option<ValueView>),
    Sequence(CompositeType, Seq<ValueView>),
    MapFrame(Option<ValueView>, Seq<(ValueView, ValueView)>),
    TaggedEmpty,
    TaggedWithTag(Option<Seq<char>>, Seq<char>),
    TaggedFull(Option<Seq<char>>, Seq<char>, Box<ValueView>),
    VarQuotedEmpty,
    VarQuotedFull(Option<Seq<char>>, Seq<char>),
}

pub open spec fn frame_type(f: FrameView) -> CompositeType {
    match f {
        FrameView::TopLevel(_) => CompositeType::TopLevelType,
        FrameView::Sequence(t, _) => t,
        FrameView::MapFrame(_, _) => CompositeType::MapType,
        FrameView::TaggedEmpty => CompositeType::TaggedLiteralType,
        FrameView::TaggedWithTag(_, _) => CompositeType::TaggedLiteralType,
        FrameView::TaggedFull(_, _, _) => CompositeType::TaggedLiteralType,
        FrameView::VarQuotedEmpty => CompositeType::VarQuotedType,
        FrameView::VarQuotedFull(_, _) => CompositeType::VarQuotedType,
    }
}

/// Adds a contained value to a partly built value; the flag tells whether
/// the value is then complete and should be closed.
pub open spec fn frame_add(f: FrameView, v: ValueView) -> Result<(FrameView, bool), BuildError> {
    match f {
        FrameView::TopLevel(None) => Ok((FrameView::TopLevel(Some(v)), false)),
        FrameView::TopLevel(Some(_)) => Err(BuildError::TooManyTopLevelValues),
        FrameView::Sequence(t, vs) => Ok((FrameView::Sequence(t, vs.push(v)), false)),
        FrameView::MapFrame(None, es) => Ok((FrameView::MapFrame(Some(v), es), false)),
        FrameView::MapFrame(Some(k), es) => Ok((FrameView::MapFrame(None, es.push((k, v))), false)),
        FrameView::TaggedEmpty => match v {
            ValueView::Symbol(ns, n) => Ok((FrameView::TaggedWithTag(ns, n), false)),
            _ => Err(BuildError::ExpectedSymbolForLiteralTag),
        },
        FrameView::TaggedWithTag(ns, n) => Ok((FrameView::TaggedFull(ns, n, Box::new(v)), true)),
        FrameView::TaggedFull(_, _, _) => Err(BuildError::ExpectedValueForTaggedLiteral),
        FrameView::VarQuotedEmpty => match v {
            ValueView::Symbol(ns, n) => Ok((FrameView::VarQuotedFull(ns, n), true)),
            _ => Err(BuildError::ExpectedSymbolForVarQuote),
        },
        FrameView::VarQuotedFull(_, _) => Err(BuildError::ExpectedSymbolForVarQuote),
    }
}

/// The value that a partly built value makes when it is closed.
pub open spec fn frame_build(f: FrameView) -> Result<ValueView, BuildError> {
    match f {
        FrameView::TopLevel(Some(v)) => Ok(v),
        FrameView::TopLevel(None) => Err(BuildError::TooFewTopLevelValues),
        FrameView::Sequence(t, vs) => if t == CompositeType::ListType {
            Ok(ValueView::ListOf(vs))
        } else if t == CompositeType::VectorType {
            Ok(ValueView::VectorOf(vs))
        } else {
            Ok(ValueView::SetOf(vs))
        },
        FrameView::MapFrame(None, es) => Ok(ValueView::MapOf(es)),
        FrameView::MapFrame(Some(_), _) => Err(BuildError::IncompleteMapEntry),
        FrameView::TaggedFull(ns, n, v) => Ok(ValueView::TaggedLiteral(ns, n, v)),
        FrameView::TaggedEmpty => Err(BuildError::IncompleteTaggedLiteral),
        FrameView::TaggedWithTag(_, _) => Err(BuildError::IncompleteTaggedLiteral),
        FrameView::VarQuotedFull(ns, n) => Ok(ValueView::VarQuoted(ns, n)),
        FrameView::VarQuotedEmpty => Err(BuildError::ExpectedSymbolForVarQuote),
    }
}

/// Closes complete values on top of the stack, adding each to the one below.
pub open spec fn settle(st: Seq<FrameView>, ready: bool) -> Result<Seq<FrameView>, BuildError>
    decreases st.len(),
{
    if !ready || st.len() <= 1 {
        Ok(st)
    } else {
        match frame_build(st.last()) {
            Err(e) => Err(e),
            Ok(v) => {
                let rest = st.drop_last();
                match frame_add(rest.last(), v) {
                    Err(e) => Err(e),
                    Ok((f, r)) => settle(rest.drop_last().push(f), r),
                }
            },
        }
    }
}

/// Adds a value to the top of the stack.
pub open spec fn push_value(st: Seq<FrameView>, v: ValueView) -> Result<Seq<FrameView>, BuildError> {
    if st.len() == 0 {
        Err(BuildError::RunawayCollection)
    } else {
        match frame_add(st.last(), v) {
            Err(e) => Err(e),
            Ok((f, r)) => settle(st.drop_last().push(f), r),
        }
    }
}

/// Closes the collection on top of the stack, which must be of type `t`.
pub open spec fn end_collection(st: Seq<FrameView>, t: CompositeType) -> Result<Seq<FrameView>, BuildError> {
    if st.len() > 0 && frame_type(st.last()) == t {
        settle(st, true)
    } else {
        Err(BuildError::InconsistentCollections)
    }
}

/// The lexemes that results can contain: no comments, no reader macros
/// other than tags and var quotes, and numbers and symbolic values with the
/// text they were read from.
pub open spec fn handled(l: Lexeme) -> bool {
    match l.token {
        Token::Whitespace | Token::SymbolicValuePrefix | Token::Nil | Token::Boolean { .. }
        | Token::String { .. } | Token::Symbol { .. } | Token::Tag { .. } | Token::Keyword { .. }
        | Token::StartList | Token::EndList | Token::StartSet | Token::EndSet
        | Token::StartVector | Token::EndVector | Token::StartMap | Token::EndMap
        | Token::TaggedLiteral { .. } | Token::VarQuote => true,
        Token::Numeric { .. } | Token::SymbolicValue { .. } => l.source is Some,
        _ => false,
    }
}

/// One lexeme's effect on the stack of partly built values.
pub open spec fn step(st: Seq<FrameView>, l: Lexeme) -> Result<Seq<FrameView>, BuildError> {
    match l.token {
        Token::Nil => push_value(st, ValueView::Nil),
        Token::Boolean { value } => push_value(st, ValueView::Boolean(value)),
        Token::Numeric { .. } => push_value(st, ValueView::Number(l.source.unwrap().str@)),
        Token::String { raw_value, .. } => push_value(st, ValueView::String(raw_value@)),
        Token::SymbolicValue { .. } => push_value(st, ValueView::SymbolicValue(l.source.unwrap().str@)),
        Token::Symbol { namespace, name } => push_value(
            st,
            ValueView::Symbol(opt_view(namespace), name@),
        ),
        Token::Tag { namespace, name } => push_value(
            st,
            ValueView::Symbol(opt_view(namespace), name@),
        ),
        Token::Keyword { alias, namespace, name } => push_value(
            st,
            ValueView::Keyword(opt_view(namespace), name@, alias),
        ),
        Token::StartList => Ok(st.push(FrameView::Sequence(CompositeType::ListType, Seq::empty()))),
        Token::EndList => end_collection(st, CompositeType::ListType),
        Token::StartSet => Ok(st.push(FrameView::Sequence(CompositeType::SetType, Seq::empty()))),
        Token::EndSet => end_collection(st, CompositeType::SetType),
        Token::StartVector => Ok(
            st.push(FrameView::Sequence(CompositeType::VectorType, Seq::empty())),
        ),
        Token::EndVector => end_collection(st, CompositeType::VectorType),
        Token::StartMap => Ok(st.push(FrameView::MapFrame(None, Seq::empty()))),
        Token::EndMap => end_collection(st, CompositeType::MapType),
        Token::TaggedLiteral { .. } => Ok(st.push(FrameView::TaggedEmpty)),
        Token::VarQuote => Ok(st.push(FrameView::VarQuotedEmpty)),
        _ => Ok(st),
    }
}

/// The stack after reading all of `ls`.
pub open spec fn run(ls: Seq<Lexeme>) -> Result<Seq<FrameView>, BuildError>
    decreases ls.len(),
{
    if ls.len() == 0 {
        Ok(seq![FrameView::TopLevel(None)])
    } else {
        match run(ls.drop_last()) {
            Err(e) => Err(e),
            Ok(st) => step(st, ls.last()),
        }
    }
}

/// The value that `ls` makes: the one top-level value, once every
/// collection has been closed.
pub open spec fn spec_build(ls: Seq<Lexeme>) -> Result<ValueView, BuildError> {
    match run(ls) {
        Err(e) => Err(e),
        Ok(st) => if st.len() > 0 && frame_type(st.last()) == CompositeType::TopLevelType {
            frame_build(st.last())
        } else {
            Err(BuildError::RunawayCollection)
        },
    }
}

/// A partly built composite value.
enum Frame {
    TopLevel(Option<Value>),
    Sequence(CompositeType, Vec<Value>),
    MapFrame(Option<Value>, Vec<MapEntry>),
    TaggedEmpty,
    TaggedWithTag(Option<String>, String),
    TaggedFull(Option<String>, String, Box<Value>),
    VarQuotedEmpty,
    VarQuotedFull(Option<String>, String),
}

spec fn frame_view(f: Frame) -> FrameView {
    match f {
        Frame::TopLevel(None) => FrameView::TopLevel(None),
        Frame::TopLevel(Some(v)) => FrameView::TopLevel(Some(value_view(v))),
        Frame::Sequence(t, vs) => FrameView::Sequence(t, values_view(vs@)),
        Frame::MapFrame(None, es) => FrameView::MapFrame(None, entries_view(es@)),
        Frame::MapFrame(Some(k), es) => FrameView::MapFrame(Some(value_view(k)), entries_view(es@)),
        Frame::TaggedEmpty => FrameView::TaggedEmpty,
        Frame::TaggedWithTag(ns, n) => FrameView::TaggedWithTag(opt_view(ns), n@),
        Frame::TaggedFull(ns, n, v) => FrameView::TaggedFull(
            opt_view(ns),
            n@,
            Box::new(value_view(*v)),
        ),
        Frame::VarQuotedEmpty => FrameView::VarQuotedEmpty,
        Frame::VarQuotedFull(ns, n) => FrameView::VarQuotedFull(opt_view(ns), n@),
    }
}

spec fn frames_view(s: Seq<Frame>) -> Seq<FrameView> {
    Seq::new(s.len(), |i: int| frame_view(s[i]))
}

fn frame_type_of(f: &Frame) -> (t: CompositeType)
    ensures
        t == frame_type(frame_view(*f)),
{
    match f {
        Frame::TopLevel(_) => CompositeType::TopLevelType,
        Frame::Sequence(t, _) => *t,
        Frame::MapFrame(_, _) => CompositeType::MapType,
        Frame::TaggedEmpty => CompositeType::TaggedLiteralType,
        Frame::TaggedWithTag(_, _) => CompositeType::TaggedLiteralType,
        Frame::TaggedFull(_, _, _) => CompositeType::TaggedLiteralType,
        Frame::VarQuotedEmpty => CompositeType::VarQuotedType,
        Frame::VarQuotedFull(_, _) => CompositeType::VarQuotedType,
    }
}

fn add_to_frame(f: Frame, v: Value) -> (r: Result<(Frame, bool), BuildError>)
    ensures
        match frame_add(frame_view(f), value_view(v)) {
            Ok((g, ready)) => (r matches Ok((h, b)) && frame_view(h) == g && b == ready),
            Err(e) => r == Err::<(Frame, bool), BuildError>(e),
        },
{
    match f {
        Frame::TopLevel(None) => Ok((Frame::TopLevel(Some(v)), false)),
        Frame::TopLevel(Some(_)) => Err(BuildError::TooManyTopLevelValues),
        Frame::Sequence(t, vs) => {
            let mut vs = vs;
            let ghost before = vs@;
            vs.push(v);
            assert(values_view(vs@) =~= values_view(before).push(value_view(v)));
            Ok((Frame::Sequence(t, vs), false))
        },
        Frame::MapFrame(None, es) => Ok((Frame::MapFrame(Some(v), es), false)),
        Frame::MapFrame(Some(k), es) => {
            let mut es = es;
            let ghost before = es@;
            let ghost kv = value_view(k);
            let entry = MapEntry { key: k, value: v };
            es.push(entry);
            assert(entries_view(es@) =~= entries_view(before).push((kv, value_view(v))));
            Ok((Frame::MapFrame(None, es), false))
        },
        Frame::TaggedEmpty => match v {
            Value::Symbol { namespace, name } => Ok((Frame::TaggedWithTag(namespace, name), false)),
            _ => Err(BuildError::ExpectedSymbolForLiteralTag),
        },
        Frame::TaggedWithTag(ns, n) => Ok((Frame::TaggedFull(ns, n, Box::new(v)), true)),
        Frame::TaggedFull(_, _, _) => Err(BuildError::ExpectedValueForTaggedLiteral),
        Frame::VarQuotedEmpty => match v {
            Value::Symbol { namespace, name } => Ok((Frame::VarQuotedFull(namespace, name), true)),
            _ => Err(BuildError::ExpectedSymbolForVarQuote),
        },
        Frame::VarQuotedFull(_, _) => Err(BuildError::ExpectedSymbolForVarQuote),
    }
}

fn build_frame(f: Frame) -> (r: Result<Value, BuildError>)
    ensures
        match frame_build(frame_view(f)) {
            Ok(v) => (r matches Ok(w) && value_view(w) == v),
            Err(e) => r == Err::<Value, BuildError>(e),
        },
{
    match f {
        Frame::TopLevel(Some(v)) => Ok(v),
        Frame::TopLevel(None) => Err(BuildError::TooFewTopLevelValues),
        Frame::Sequence(t, values) => match t {
            CompositeType::ListType => Ok(Value::List { values }),
            CompositeType::VectorType => Ok(Value::Vector { values }),
            _ => Ok(Value::SetColl { values }),
        },
        Frame::MapFrame(None, entries) => Ok(Value::MapColl { entries }),
        Frame::MapFrame(Some(_), _) => Err(BuildError::IncompleteMapEntry),
        Frame::TaggedFull(namespace, name, value) => Ok(
            Value::TaggedLiteral { namespace, name, value },
        ),
        Frame::TaggedEmpty => Err(BuildError::IncompleteTaggedLiteral),
        Frame::TaggedWithTag(_, _) => Err(BuildError::IncompleteTaggedLiteral),
        Frame::VarQuotedFull(namespace, name) => Ok(Value::VarQuoted { namespace, name }),
        Frame::VarQuotedEmpty => Err(BuildError::ExpectedSymbolForVarQuote),
    }
}

fn settle_exec(stack: &mut Vec<Frame>, ready0: bool) -> (r: Result<(), BuildError>)
    ensures
        match settle(frames_view(old(stack)@), ready0) {
            Ok(st) => r is Ok && frames_view(final(stack)@) == st,
            Err(e) => r == Err::<(), BuildError>(e),
        },
{
    let mut ready = ready0;
    let ghost target = settle(frames_view(stack@), ready);
    loop
        invariant
            settle(frames_view(stack@), ready) == target,
            target == settle(frames_view(old(stack)@), ready0),
        decreases stack.len(),
    {
        if !ready || stack.len() <= 1 {
            return Ok(());
        }
        let ghost st = frames_view(stack@);
        let top = stack.pop().unwrap();
        assert(frames_view(stack@) =~= st.drop_last());
        let v = match build_frame(top) {
            Ok(v) => v,
            Err(e) => return Err(e),
        };
        let below = stack.pop().unwrap();
        assert(frames_view(stack@) =~= st.drop_last().drop_last());
        match add_to_frame(below, v) {
            Ok((f, r)) => {
                let ghost before = stack@;
                stack.push(f);
                assert(frames_view(stack@) =~= frames_view(before).push(frame_view(f)));
                ready = r;
            },
            Err(e) => return Err(e),
        }
    }
}

fn push_value_exec(stack: &mut Vec<Frame>, v: Value) -> (r: Result<(), BuildError>)
    ensures
        match push_value(frames_view(old(stack)@), value_view(v)) {
            Ok(st) => r is Ok && frames_view(final(stack)@) == st,
            Err(e) => r == Err::<(), BuildError>(e),
        },
{
    let ghost st = frames_view(stack@);
    match stack.pop() {
        None => Err(BuildError::RunawayCollection),
        Some(top) => {
            assert(frames_view(stack@) =~= st.drop_last());
            match add_to_frame(top, v) {
                Ok((f, r)) => {
                    let ghost before = stack@;
                    stack.push(f);
                    assert(frames_view(stack@) =~= frames_view(before).push(frame_view(f)));
                    settle_exec(stack, r)
                },
                Err(e) => Err(e),
            }
        },
    }
}

fn start_exec(stack: &mut Vec<Frame>, f: Frame)
    ensures
        frames_view(final(stack)@) == frames_view(old(stack)@).push(frame_view(f)),
{
    let ghost before = stack@;
    stack.push(f);
    assert(frames_view(stack@) =~= frames_view(before).push(frame_view(f)));
}

fn end_exec(stack: &mut Vec<Frame>, t: CompositeType) -> (r: Result<(), BuildError>)
    ensures
        match end_collection(frames_view(old(stack)@), t) {
            Ok(st) => r is Ok && frames_view(final(stack)@) == st,
            Err(e) => r == Err::<(), BuildError>(e),
        },
{
    let n = stack.len();
    if n > 0 && frame_type_of(&stack[n - 1]) == t {
        settle_exec(stack, true)
    } else {
        Err(BuildError::InconsistentCollections)
    }
}

fn clone_opt(s: &Option<String>) -> (r: Option<String>)
    ensures
        r == *s,
{
    match s {
        Some(t) => Some(t.clone()),
        None => None,
    }
}

fn step_exec(stack: &mut Vec<Frame>, l: &Lexeme) -> (r: Result<(), BuildError>)
    requires
        handled(*l),
    ensures
        match step(frames_view(old(stack)@), *l) {
            Ok(st) => r is Ok && frames_view(final(stack)@) == st,
            Err(e) => r == Err::<(), BuildError>(e),
        },
{
    assert(values_view(Seq::<Value>::empty()) =~= Seq::<ValueView>::empty());
    assert(entries_view(Seq::<MapEntry>::empty()) =~= Seq::<(ValueView, ValueView)>::empty());
match &l.token {
        Token::Nil => push_value_exec(stack, Value::Nil),
        Token::Boolean { value } => push_value_exec(stack, Value::Boolean { value: *value }),
        Token::Numeric { .. } => {
            let literal = match &l.source {
                Some(src) => src.str.clone(),
                None => String::new(),
            };
            push_value_exec(stack, Value::Number { literal })
        },
        Token::String { raw_value, .. } => push_value_exec(
            stack,
            Value::String { literal: raw_value.clone() },
        ),
        Token::SymbolicValue { .. } => {
            let literal = match &l.source {
                Some(src) => src.str.clone(),
                None => String::new(),
            };
            push_value_exec(stack, Value::SymbolicValue { literal })
        },
        Token::Symbol { namespace, name } => push_value_exec(
            stack,
            Value::Symbol { namespace: clone_opt(namespace), name: name.clone() },
        ),
        Token::Tag { namespace, name } => push_value_exec(
            stack,
            Value::Symbol { namespace: clone_opt(namespace), name: name.clone() },
        ),
        Token::Keyword { alias, namespace, name } => push_value_exec(
            stack,
            Value::Keyword { namespace: clone_opt(namespace), name: name.clone(), alias: *alias },
        ),
        Token::StartList => {
            start_exec(stack, Frame::Sequence(CompositeType::ListType, Vec::new()));
            Ok(())
        },
        Token::EndList => end_exec(stack, CompositeType::ListType),
        Token::StartSet => {
            start_exec(stack, Frame::Sequence(CompositeType::SetType, Vec::new()));
            Ok(())
        },
        Token::EndSet => end_exec(stack, CompositeType::SetType),
        Token::StartVector => {
            start_exec(stack, Frame::Sequence(CompositeType::VectorType, Vec::new()));
            Ok(())
        },
        Token::EndVector => end_exec(stack, CompositeType::VectorType),
        Token::StartMap => {
            start_exec(stack, Frame::MapFrame(None, Vec::new()));
            Ok(())
        },
        Token::EndMap => end_exec(stack, CompositeType::MapType),
        Token::TaggedLiteral { .. } => {
            start_exec(stack, Frame::TaggedEmpty);
            Ok(())
        },
        Token::VarQuote => {
            start_exec(stack, Frame::VarQuotedEmpty);
            Ok(())
        },
        _ => Ok(()),
    }
}

proof fn lemma_run_error_sticks(ls: Seq<Lexeme>, k: int)
    requires
        0 <= k <= ls.len(),
        run(ls.take(k)) is Err,
    ensures
        run(ls) == run(ls.take(k)),
    decreases ls.len(),
{
    if k < ls.len() {
        assert(ls.drop_last().take(k) == ls.take(k));
        lemma_run_error_sticks(ls.drop_last(), k);
    } else {
        assert(ls.take(k) == ls);
    }
}

/// Builds the single value that the lexemes of a result make.
pub fn build(lexemes: &[Lexeme]) -> (r: Result<Value, BuildError>)
    requires
        forall|i: int| 0 <= i < lexemes.len() ==> handled(#[trigger] lexemes@[i]),
    ensures
        match spec_build(lexemes@) {
            Ok(v) => (r matches Ok(w) && value_view(w) == v),
            Err(e) => r == Err::<Value, BuildError>(e),
        },
{
    let mut stack: Vec<Frame> = Vec::new();
    stack.push(Frame::TopLevel(None));
    assert(frames_view(stack@) =~= seq![FrameView::TopLevel(None)]);
    let mut i: usize = 0;
    while i < lexemes.len()
        invariant
            i <= lexemes.len(),
            forall|k: int| 0 <= k < lexemes.len() ==> handled(#[trigger] lexemes@[k]),
            run(lexemes@.take(i as int)) == Ok::<Seq<FrameView>, BuildError>(frames_view(stack@)),
        decreases lexemes.len() - i,
    {
        let l = &lexemes[i];
        assert(lexemes@.take(i + 1).drop_last() == lexemes@.take(i as int));
        assert(lexemes@.take(i + 1).last() == *l);
        assert(handled(*l));
        let res = step_exec(&mut stack, l);
        match res {
            Ok(()) => {},
            Err(e) => {
                proof {
                    lemma_run_error_sticks(lexemes@, i + 1);
                }
                return Err(e);
            },
        }
        i = i + 1;
    }
    assert(lexemes@.take(lexemes.len() as int) == lexemes@);
    let ghost st = frames_view(stack@);
    match stack.pop() {
        Some(top) => {
            if frame_type_of(&top) == CompositeType::TopLevelType {
                build_frame(top)
            } else {
                Err(BuildError::RunawayCollection)
            }
        },
        None => Err(BuildError::RunawayCollection),
    }
}

} // verus!
