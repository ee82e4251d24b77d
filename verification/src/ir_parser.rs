//! The abstract syntax tree of the intermediate representation and its
//! recursive descent parser.
//!
//! The parser is specified against a ghost mirror (`sp_parse_*`) of the
//! grammar over the token sequence: each parsing routine either declines the
//! input without consuming it (`Miss`), fails fatally with a `SyntaxError`
//! (`Fail`), or yields a syntax node together with the position of the first
//! token it did not consume (`Hit`).

use vstd::prelude::*;

use crate::ir_lexer::{TokLoc, Token, TokenAbs, tok_abs, tok_loc};

verus! {

// ------------------------------------------------------------------
// The abstract syntax tree
// ------------------------------------------------------------------

/// A type of the intermediate representation.
#[derive(Debug, PartialEq)]
pub enum Type {
    I8,
    I16,
    I32,
    I64,
    F32,
    F64,
    Void,
    Ptr(Box<Type>),
    UserType(String),
}

/// A variable use, rendered with a leading `%`.
#[derive(Debug, PartialEq)]
pub struct Variable {
    pub name: String,
}

/// A function name, rendered with a leading `@`.
#[derive(Debug, PartialEq)]
pub struct Function {
    pub name: String,
}

/// A definition site: a variable name bound to a type.
#[derive(Debug, PartialEq)]
pub struct VarTypePair {
    pub name: String,
    pub typename: Type,
}

/// A function signature: name, return type, and parameter list.
#[derive(Debug, Clone, PartialEq)]
pub struct FuncSig {
    pub name: String,
    pub typename: Type,
    pub arglist: Vec<VarTypePair>,
}

/// The right-hand side of a `let`: an integer literal or a variable.
#[derive(Debug, Clone, PartialEq)]
pub enum LetValue {
    LetVariable(Variable),
    LetInteger(i64),
}

/// One statement of a function body.
#[derive(Debug, Clone, PartialEq)]
pub enum Stmt {
    AddInst(VarTypePair, Variable, Variable),
    SubInst(VarTypePair, Variable, Variable),
    LetInst(VarTypePair, LetValue),
    RetInst(Option<Variable>),
    CallInst(VarTypePair, Function, Vec<Variable>),
}

/// The root of the syntax tree: one function definition.
#[derive(Debug, Clone, PartialEq)]
pub enum Node {
    FuncDef(FuncSig, Vec<Stmt>),
}

impl Clone for Type {
    fn clone(&self) -> (r: Self)
        ensures
            r@ == self@,
        decreases self,
    {
        match self {
            Type::I8 => Type::I8,
            Type::I16 => Type::I16,
            Type::I32 => Type::I32,
            Type::I64 => Type::I64,
            Type::F32 => Type::F32,
            Type::F64 => Type::F64,
            Type::Void => Type::Void,
            Type::Ptr(t) => Type::Ptr(Box::new((**t).clone())),
            Type::UserType(s) => Type::UserType(clone_string(s)),
        }
    }
}

/// Relies on String::clone: the copy holds the same characters.
#[verifier::external_body]
pub(crate) fn clone_string(s: &String) -> (r: String)
    ensures
        r@ == s@,
{
    s.clone()
}

impl Clone for Variable {
    fn clone(&self) -> (r: Self)
        ensures
            r@ == self@,
    {
        Variable { name: clone_string(&self.name) }
    }
}

impl Clone for Function {
    fn clone(&self) -> (r: Self)
        ensures
            r@ == self@,
    {
        Function { name: clone_string(&self.name) }
    }
}

impl Clone for VarTypePair {
    fn clone(&self) -> (r: Self)
        ensures
            r@ == self@,
    {
        VarTypePair { name: clone_string(&self.name), typename: self.typename.clone() }
    }
}

// ------------------------------------------------------------------
// Ghost mirror of the syntax tree
// ------------------------------------------------------------------

/// The mathematical value of a `Type`.
pub ghost enum TypeV {
    I8,
    I16,
    I32,
    I64,
    F32,
    F64,
    Void,
    Ptr(Box<TypeV>),
    UserType(Seq<char>),
}

/// The mathematical value of a `VarTypePair`.
pub ghost struct VtpV {
    pub name: Seq<char>,
    pub typ: TypeV,
}

/// The mathematical value of a `LetValue`.
pub ghost enum LetValueV {
    Var(Seq<char>),
    Int(i64),
}

/// The mathematical value of a `Stmt`.
pub ghost enum StmtV {
    Add(VtpV, Seq<char>, Seq<char>),
    Sub(VtpV, Seq<char>, Seq<char>),
    Let(VtpV, LetValueV),
    Ret(Option<Seq<char>>),
    Call(VtpV, Seq<char>, Seq<Seq<char>>),
}

/// The mathematical value of a `FuncSig`.
pub ghost struct FuncSigV {
    pub name: Seq<char>,
    pub typ: TypeV,
    pub args: Seq<VtpV>,
}

/// The mathematical value of a `Node`.
pub ghost enum NodeV {
    FuncDef(FuncSigV, Seq<StmtV>),
}

pub open spec fn type_view(t: Type) -> TypeV
    decreases t,
{
    match t {
        Type::I8 => TypeV::I8,
        Type::I16 => TypeV::I16,
        Type::I32 => TypeV::I32,
        Type::I64 => TypeV::I64,
        Type::F32 => TypeV::F32,
        Type::F64 => TypeV::F64,
        Type::Void => TypeV::Void,
        Type::Ptr(inner) => TypeV::Ptr(Box::new(type_view(*inner))),
        Type::UserType(s) => TypeV::UserType(s@),
    }
}

impl View for Type {
    type V = TypeV;

    open spec fn view(&self) -> TypeV {
        type_view(*self)
    }
}

impl View for Variable {
    type V = Seq<char>;

    open spec fn view(&self) -> Seq<char> {
        self.name@
    }
}

impl View for Function {
    type V = Seq<char>;

    open spec fn view(&self) -> Seq<char> {
        self.name@
    }
}

impl View for VarTypePair {
    type V = VtpV;

    open spec fn view(&self) -> VtpV {
        VtpV { name: self.name@, typ: self.typename@ }
    }
}

/// The mathematical values of a sequence of definition sites.
pub open spec fn vtps_view(s: Seq<VarTypePair>) -> Seq<VtpV> {
    s.map_values(|p: VarTypePair| p@)
}

/// The names of a sequence of variables.
pub open spec fn vars_view(s: Seq<Variable>) -> Seq<Seq<char>> {
    s.map_values(|v: Variable| v@)
}

impl View for FuncSig {
    type V = FuncSigV;

    open spec fn view(&self) -> FuncSigV {
        FuncSigV { name: self.name@, typ: self.typename@, args: vtps_view(self.arglist@) }
    }
}

impl View for LetValue {
    type V = LetValueV;

    open spec fn view(&self) -> LetValueV {
        match self {
            LetValue::LetVariable(v) => LetValueV::Var(v.name@),
            LetValue::LetInteger(i) => LetValueV::Int(*i),
        }
    }
}

impl View for Stmt {
    type V = StmtV;

    open spec fn view(&self) -> StmtV {
        match self {
            Stmt::AddInst(d, l, r) => StmtV::Add(d@, l@, r@),
            Stmt::SubInst(d, l, r) => StmtV::Sub(d@, l@, r@),
            Stmt::LetInst(d, v) => StmtV::Let(d@, v@),
            Stmt::RetInst(o) => StmtV::Ret(
                match o {
                    Some(v) => Some(v@),
                    None => None,
                },
            ),
            Stmt::CallInst(d, f, args) => StmtV::Call(d@, f@, vars_view(args@)),
        }
    }
}

/// The mathematical values of a sequence of statements.
pub open spec fn stmts_view(s: Seq<Stmt>) -> Seq<StmtV> {
    s.map_values(|st: Stmt| st@)
}

impl View for Node {
    type V = NodeV;

    open spec fn view(&self) -> NodeV {
        match self {
            Node::FuncDef(sig, body) => NodeV::FuncDef(sig@, stmts_view(body@)),
        }
    }
}

// ------------------------------------------------------------------
// The promotable-to relation
// ------------------------------------------------------------------

/// The promotable-to relation on types: every primitive (and `void`)
/// promotes exactly to itself; pointer and user types promote to nothing,
/// not even to themselves.
pub open spec fn promotable(a: TypeV, b: TypeV) -> bool {
    match a {
        TypeV::Ptr(_) => false,
        TypeV::UserType(_) => false,
        _ => a == b,
    }
}

/// Whether a value of type `left` may flow into a binding of type `right`.
pub fn is_promotable_to(left: &Type, right: &Type) -> (r: bool)
    ensures
        r == promotable(left@, right@),
{
    match (left, right) {
        (Type::I8, Type::I8) => true,
        (Type::I16, Type::I16) => true,
        (Type::I32, Type::I32) => true,
        (Type::I64, Type::I64) => true,
        (Type::F32, Type::F32) => true,
        (Type::F64, Type::F64) => true,
        (Type::Void, Type::Void) => true,
        _ => false,
    }
}

// ------------------------------------------------------------------
// Syntax errors
// ------------------------------------------------------------------

/// A fatal parsing failure. Where the grammar position offers one, the
/// payload is the location of the token that led the phrase.
#[derive(Debug, Clone, Copy, PartialEq, Eq, Structural)]
pub enum SyntaxError {
    /// A name was not followed by `:` (location: the name).
    ExpectedColon(TokLoc),
    /// A `:` was not followed by a type (location: the colon).
    ExpectedType(TokLoc),
    /// A first operand was not followed by a second (location: the first).
    ExpectedSecondOperand(TokLoc),
    /// A keyword was not followed by its destination pair (location: the keyword).
    ExpectedVarTypePair(TokLoc),
    /// `add`/`sub` was not followed by two operands (location: the keyword).
    ExpectedOperands(TokLoc),
    /// `let` was not followed by a value (location: the keyword).
    ExpectedLetValue(TokLoc),
    /// `ret` was not followed by a variable or `void` (location: the keyword).
    ExpectedRetValue(TokLoc),
    /// A parameter list was not closed (location: its opening parenthesis).
    ExpectedRParen(TokLoc),
    /// A signature had no parameter list.
    ExpectedLParen,
    /// A function body was not opened (location: the `func` keyword).
    ExpectedLBrace(TokLoc),
    /// A function body was not closed (location: its opening brace).
    ExpectedRBrace(TokLoc),
    /// `func` was not followed by a signature.
    ExpectedFuncSig,
    /// `call` was not followed by its destination pair.
    ExpectedCallDest,
    /// A call destination was not followed by a function name.
    ExpectedFuncName,
    /// A call had no argument list.
    ExpectedCallLParen,
    /// A call argument list was not closed.
    ExpectedCallRParen,
    /// A comma in an argument list was not followed by another argument
    /// (location: the comma).
    ExpectedParamName(TokLoc),
}

/// What one parsing routine does at one position: decline without
/// consuming, fail fatally, or yield a node and the position after it.
pub ghost enum Parse<T> {
    Miss,
    Fail(SyntaxError),
    Hit(T, int),
}

// ------------------------------------------------------------------
// Ghost mirror of the parser
// ------------------------------------------------------------------

/// One leading type keyword.
pub open spec fn sp_parse_type(ts: Seq<Token>, i: int) -> Parse<TypeV> {
    if i < ts.len() {
        match tok_abs(ts[i]) {
            TokenAbs::I8Keyword => Parse::Hit(TypeV::I8, i + 1),
            TokenAbs::I16Keyword => Parse::Hit(TypeV::I16, i + 1),
            TokenAbs::I32Keyword => Parse::Hit(TypeV::I32, i + 1),
            TokenAbs::I64Keyword => Parse::Hit(TypeV::I64, i + 1),
            TokenAbs::F32Keyword => Parse::Hit(TypeV::F32, i + 1),
            TokenAbs::F64Keyword => Parse::Hit(TypeV::F64, i + 1),
            _ => Parse::Miss,
        }
    } else {
        Parse::Miss
    }
}

/// A `%name : Type` definition site.
pub open spec fn sp_parse_vtp(ts: Seq<Token>, i: int) -> Parse<VtpV> {
    if i < ts.len() && tok_abs(ts[i]) is VarName {
        let name = tok_abs(ts[i])->VarName_0;
        if i + 1 < ts.len() && tok_abs(ts[i + 1]) is Colon {
            match sp_parse_type(ts, i + 2) {
                Parse::Hit(t, j) => Parse::Hit(VtpV { name, typ: t }, j),
                _ => Parse::Fail(SyntaxError::ExpectedType(tok_loc(ts[i + 1]))),
            }
        } else {
            Parse::Fail(SyntaxError::ExpectedColon(tok_loc(ts[i])))
        }
    } else {
        Parse::Miss
    }
}

/// An `@name : Type` pair at the head of a signature.
pub open spec fn sp_parse_func_type_pair(ts: Seq<Token>, i: int) -> Parse<(Seq<char>, TypeV)> {
    if i < ts.len() && tok_abs(ts[i]) is FuncName {
        let name = tok_abs(ts[i])->FuncName_0;
        if i + 1 < ts.len() && tok_abs(ts[i + 1]) is Colon {
            match sp_parse_type(ts, i + 2) {
                Parse::Hit(t, j) => Parse::Hit((name, t), j),
                _ => Parse::Fail(SyntaxError::ExpectedType(tok_loc(ts[i + 1]))),
            }
        } else {
            Parse::Fail(SyntaxError::ExpectedColon(tok_loc(ts[i])))
        }
    } else {
        Parse::Miss
    }
}

/// The two operand variables of an `add` or `sub`.
pub open spec fn sp_parse_binvars(ts: Seq<Token>, i: int) -> Parse<(Seq<char>, Seq<char>)> {
    if i < ts.len() && tok_abs(ts[i]) is VarName {
        let l = tok_abs(ts[i])->VarName_0;
        if i + 1 < ts.len() && tok_abs(ts[i + 1]) is VarName {
            Parse::Hit((l, tok_abs(ts[i + 1])->VarName_0), i + 2)
        } else {
            Parse::Fail(SyntaxError::ExpectedSecondOperand(tok_loc(ts[i])))
        }
    } else {
        Parse::Miss
    }
}

/// A `let` right-hand side: an integer literal or a variable.
pub open spec fn sp_parse_let_value(ts: Seq<Token>, i: int) -> Parse<LetValueV> {
    if i < ts.len() {
        match tok_abs(ts[i]) {
            TokenAbs::Integer(v) => Parse::Hit(LetValueV::Int(v), i + 1),
            TokenAbs::VarName(nm) => Parse::Hit(LetValueV::Var(nm), i + 1),
            _ => Parse::Miss,
        }
    } else {
        Parse::Miss
    }
}

/// A `ret` operand: a variable, or the keyword `void` for none.
pub open spec fn sp_parse_ret_value(ts: Seq<Token>, i: int) -> Parse<Option<Seq<char>>> {
    if i < ts.len() {
        match tok_abs(ts[i]) {
            TokenAbs::VarName(nm) => Parse::Hit(Some(nm), i + 1),
            TokenAbs::VoidKeyword => Parse::Hit(None, i + 1),
            _ => Parse::Miss,
        }
    } else {
        Parse::Miss
    }
}

/// An `add` statement.
pub open spec fn sp_parse_add(ts: Seq<Token>, i: int) -> Parse<StmtV> {
    if i < ts.len() && tok_abs(ts[i]) is AddKeyword {
        let kl = tok_loc(ts[i]);
        match sp_parse_vtp(ts, i + 1) {
            Parse::Hit(d, j) => match sp_parse_binvars(ts, j) {
                Parse::Hit(ops, j2) => Parse::Hit(StmtV::Add(d, ops.0, ops.1), j2),
                Parse::Fail(e) => Parse::Fail(e),
                Parse::Miss => Parse::Fail(SyntaxError::ExpectedOperands(kl)),
            },
            Parse::Fail(e) => Parse::Fail(e),
            Parse::Miss => Parse::Fail(SyntaxError::ExpectedVarTypePair(kl)),
        }
    } else {
        Parse::Miss
    }
}

/// A `sub` statement.
pub open spec fn sp_parse_sub(ts: Seq<Token>, i: int) -> Parse<StmtV> {
    if i < ts.len() && tok_abs(ts[i]) is SubKeyword {
        let kl = tok_loc(ts[i]);
        match sp_parse_vtp(ts, i + 1) {
            Parse::Hit(d, j) => match sp_parse_binvars(ts, j) {
                Parse::Hit(ops, j2) => Parse::Hit(StmtV::Sub(d, ops.0, ops.1), j2),
                Parse::Fail(e) => Parse::Fail(e),
                Parse::Miss => Parse::Fail(SyntaxError::ExpectedOperands(kl)),
            },
            Parse::Fail(e) => Parse::Fail(e),
            Parse::Miss => Parse::Fail(SyntaxError::ExpectedVarTypePair(kl)),
        }
    } else {
        Parse::Miss
    }
}

/// A `let` statement.
pub open spec fn sp_parse_let(ts: Seq<Token>, i: int) -> Parse<StmtV> {
    if i < ts.len() && tok_abs(ts[i]) is LetKeyword {
        let kl = tok_loc(ts[i]);
        match sp_parse_vtp(ts, i + 1) {
            Parse::Hit(d, j) => match sp_parse_let_value(ts, j) {
                Parse::Hit(v, j2) => Parse::Hit(StmtV::Let(d, v), j2),
                Parse::Fail(e) => Parse::Fail(e),
                Parse::Miss => Parse::Fail(SyntaxError::ExpectedLetValue(kl)),
            },
            Parse::Fail(e) => Parse::Fail(e),
            Parse::Miss => Parse::Fail(SyntaxError::ExpectedVarTypePair(kl)),
        }
    } else {
        Parse::Miss
    }
}

/// A `ret` statement.
pub open spec fn sp_parse_ret(ts: Seq<Token>, i: int) -> Parse<StmtV> {
    if i < ts.len() && tok_abs(ts[i]) is RetKeyword {
        let kl = tok_loc(ts[i]);
        match sp_parse_ret_value(ts, i + 1) {
            Parse::Hit(v, j) => Parse::Hit(StmtV::Ret(v), j),
            Parse::Fail(e) => Parse::Fail(e),
            Parse::Miss => Parse::Fail(SyntaxError::ExpectedRetValue(kl)),
        }
    } else {
        Parse::Miss
    }
}

/// A comma-separated list of definition sites; may be empty. A comma must
/// be followed by another item.
pub open spec fn sp_parse_arg_list(ts: Seq<Token>, i: int) -> Parse<Seq<VtpV>>
    decreases ts.len() - i,
{
    match sp_parse_vtp(ts, i) {
        Parse::Miss => Parse::Hit(Seq::empty(), i),
        Parse::Fail(e) => Parse::Fail(e),
        Parse::Hit(v, j) => {
            if i < j <= ts.len() {
                if j < ts.len() && tok_abs(ts[j]) is Comma {
                    match sp_parse_vtp(ts, j + 1) {
                        Parse::Miss => Parse::Fail(
                            SyntaxError::ExpectedVarTypePair(tok_loc(ts[j])),
                        ),
                        _ => match sp_parse_arg_list(ts, j + 1) {
                            Parse::Hit(rest, j2) => Parse::Hit(seq![v] + rest, j2),
                            Parse::Fail(e) => Parse::Fail(e),
                            Parse::Miss => Parse::Miss,
                        },
                    }
                } else {
                    Parse::Hit(seq![v], j)
                }
            } else {
                Parse::Hit(seq![v], j)
            }
        },
    }
}

/// A comma-separated list of call arguments; may be empty. A comma must be
/// followed by another argument.
pub open spec fn sp_parse_param_list(ts: Seq<Token>, i: int) -> Parse<Seq<Seq<char>>>
    decreases ts.len() - i,
{
    if i < ts.len() && tok_abs(ts[i]) is VarName {
        let nm = tok_abs(ts[i])->VarName_0;
        if i + 1 < ts.len() && tok_abs(ts[i + 1]) is Comma {
            if i + 2 < ts.len() && tok_abs(ts[i + 2]) is VarName {
                match sp_parse_param_list(ts, i + 2) {
                    Parse::Hit(rest, j2) => Parse::Hit(seq![nm] + rest, j2),
                    Parse::Fail(e) => Parse::Fail(e),
                    Parse::Miss => Parse::Miss,
                }
            } else {
                Parse::Fail(SyntaxError::ExpectedParamName(tok_loc(ts[i + 1])))
            }
        } else {
            Parse::Hit(seq![nm], i + 1)
        }
    } else {
        Parse::Hit(Seq::empty(), i)
    }
}

/// A function signature: `@name : Type ( arguments )`.
pub open spec fn sp_parse_func_sig(ts: Seq<Token>, i: int) -> Parse<FuncSigV> {
    match sp_parse_func_type_pair(ts, i) {
        Parse::Miss => Parse::Miss,
        Parse::Fail(e) => Parse::Fail(e),
        Parse::Hit(nt, j) => {
            if j < ts.len() && tok_abs(ts[j]) is LParen {
                match sp_parse_arg_list(ts, j + 1) {
                    Parse::Fail(e) => Parse::Fail(e),
                    Parse::Hit(args, j2) => {
                        if j2 < ts.len() && tok_abs(ts[j2]) is RParen {
                            Parse::Hit(FuncSigV { name: nt.0, typ: nt.1, args }, j2 + 1)
                        } else {
                            Parse::Fail(SyntaxError::ExpectedRParen(tok_loc(ts[j])))
                        }
                    },
                    Parse::Miss => Parse::Fail(SyntaxError::ExpectedRParen(tok_loc(ts[j]))),
                }
            } else {
                Parse::Fail(SyntaxError::ExpectedLParen)
            }
        },
    }
}

/// A `call` statement: `call %d:T @f ( arguments )`.
pub open spec fn sp_parse_func_call(ts: Seq<Token>, i: int) -> Parse<StmtV> {
    if i < ts.len() && tok_abs(ts[i]) is CallKeyword {
        match sp_parse_vtp(ts, i + 1) {
            Parse::Miss => Parse::Fail(SyntaxError::ExpectedCallDest),
            Parse::Fail(e) => Parse::Fail(e),
            Parse::Hit(d, j) => {
                if j < ts.len() && tok_abs(ts[j]) is FuncName {
                    let fname = tok_abs(ts[j])->FuncName_0;
                    if j + 1 < ts.len() && tok_abs(ts[j + 1]) is LParen {
                        match sp_parse_param_list(ts, j + 2) {
                            Parse::Fail(e) => Parse::Fail(e),
                            Parse::Hit(ps, j2) => {
                                if j2 < ts.len() && tok_abs(ts[j2]) is RParen {
                                    Parse::Hit(StmtV::Call(d, fname, ps), j2 + 1)
                                } else {
                                    Parse::Fail(SyntaxError::ExpectedCallRParen)
                                }
                            },
                            Parse::Miss => Parse::Fail(SyntaxError::ExpectedCallRParen),
                        }
                    } else {
                        Parse::Fail(SyntaxError::ExpectedCallLParen)
                    }
                } else {
                    Parse::Fail(SyntaxError::ExpectedFuncName)
                }
            },
        }
    } else {
        Parse::Miss
    }
}

/// One statement: the alternatives are directed by their leading keyword.
pub open spec fn sp_parse_statement(ts: Seq<Token>, i: int) -> Parse<StmtV> {
    match sp_parse_add(ts, i) {
        Parse::Miss => match sp_parse_sub(ts, i) {
            Parse::Miss => match sp_parse_let(ts, i) {
                Parse::Miss => match sp_parse_ret(ts, i) {
                    Parse::Miss => sp_parse_func_call(ts, i),
                    other => other,
                },
                other => other,
            },
            other => other,
        },
        other => other,
    }
}

/// A run of statements, ended by the first token that starts none.
pub open spec fn sp_parse_statements(ts: Seq<Token>, i: int) -> Parse<Seq<StmtV>>
    decreases ts.len() - i,
{
    match sp_parse_statement(ts, i) {
        Parse::Miss => Parse::Hit(Seq::empty(), i),
        Parse::Fail(e) => Parse::Fail(e),
        Parse::Hit(s1, j) => {
            if i < j <= ts.len() {
                match sp_parse_statements(ts, j) {
                    Parse::Hit(rest, j2) => Parse::Hit(seq![s1] + rest, j2),
                    Parse::Fail(e) => Parse::Fail(e),
                    Parse::Miss => Parse::Miss,
                }
            } else {
                Parse::Hit(seq![s1], j)
            }
        },
    }
}

/// A whole function definition: `func` signature `{` statements `}`.
pub open spec fn sp_parse_func(ts: Seq<Token>, i: int) -> Parse<NodeV> {
    if i < ts.len() && tok_abs(ts[i]) is FuncKeyword {
        let kl = tok_loc(ts[i]);
        match sp_parse_func_sig(ts, i + 1) {
            Parse::Miss => Parse::Fail(SyntaxError::ExpectedFuncSig),
            Parse::Fail(e) => Parse::Fail(e),
            Parse::Hit(sig, j) => {
                if j < ts.len() && tok_abs(ts[j]) is LBrace {
                    match sp_parse_statements(ts, j + 1) {
                        Parse::Fail(e) => Parse::Fail(e),
                        Parse::Hit(body, j2) => {
                            if j2 < ts.len() && tok_abs(ts[j2]) is RBrace {
                                Parse::Hit(NodeV::FuncDef(sig, body), j2 + 1)
                            } else {
                                Parse::Fail(SyntaxError::ExpectedRBrace(tok_loc(ts[j])))
                            }
                        },
                        Parse::Miss => Parse::Fail(SyntaxError::ExpectedRBrace(tok_loc(ts[j]))),
                    }
                } else {
                    Parse::Fail(SyntaxError::ExpectedLBrace(kl))
                }
            },
        }
    } else {
        Parse::Miss
    }
}

/// What `parse` returns for a whole token sequence: the function definition
/// the tokens begin with, `None` where they do not begin with `func`, or
/// the syntax error. Tokens after the definition are ignored.
pub open spec fn sp_parse(ts: Seq<Token>) -> Result<Option<NodeV>, SyntaxError> {
    match sp_parse_func(ts, 0) {
        Parse::Miss => Ok(None),
        Parse::Fail(e) => Err(e),
        Parse::Hit(n, _) => Ok(Some(n)),
    }
}


// ------------------------------------------------------------------
// The executable parser
// ------------------------------------------------------------------

/// Parses one leading type keyword, consuming nothing when the next token
/// is no type.
pub fn parse_type(tokens: &Vec<Token>, pos: &mut usize) -> (r: Option<Type>)
    requires
        *old(pos) <= tokens@.len(),
    ensures
        ({
            let s = sp_parse_type(tokens@, *old(pos) as int);
            &&& (s is Miss ==> r is None)
            &&& (s matches Parse::Hit(tv, j) ==> r matches Some(t) && t@ == tv
                && *final(pos) as int == j)
        }),
        r is Some ==> *old(pos) < *final(pos) <= tokens@.len(),
        r is None ==> *final(pos) == *old(pos),
        *old(pos) <= *final(pos) <= tokens@.len(),
{
    if *pos < tokens.len() {
        match &tokens[*pos] {
            Token::I8Keyword(_) => {
                *pos += 1;
                Some(Type::I8)
            },
            Token::I16Keyword(_) => {
                *pos += 1;
                Some(Type::I16)
            },
            Token::I32Keyword(_) => {
                *pos += 1;
                Some(Type::I32)
            },
            Token::I64Keyword(_) => {
                *pos += 1;
                Some(Type::I64)
            },
            Token::F32Keyword(_) => {
                *pos += 1;
                Some(Type::F32)
            },
            Token::F64Keyword(_) => {
                *pos += 1;
                Some(Type::F64)
            },
            _ => None,
        }
    } else {
        None
    }
}

/// Parses a `%name : Type` definition site.
pub fn parse_var_type_pair(tokens: &Vec<Token>, pos: &mut usize) -> (r: Result<
    Option<VarTypePair>,
    SyntaxError,
>)
    requires
        *old(pos) <= tokens@.len(),
    ensures
        ({
            let s = sp_parse_vtp(tokens@, *old(pos) as int);
            &&& (s is Miss ==> r == Ok::<Option<VarTypePair>, SyntaxError>(None))
            &&& (s matches Parse::Fail(e) ==> r == Err::<Option<VarTypePair>, SyntaxError>(e))
            &&& (s matches Parse::Hit(v, j) ==> r matches Ok(o) && o matches Some(p) && p@ == v
                && *final(pos) as int == j)
        }),
        r matches Ok(o) && o is Some ==> *old(pos) < *final(pos) <= tokens@.len(),
        r matches Ok(o) && o is None ==> *final(pos) == *old(pos),
        *old(pos) <= *final(pos) <= tokens@.len(),
{
    let n = tokens.len();
    if *pos < n {
        match &tokens[*pos] {
            Token::VarName(name, vloc) => {
                let name = clone_string(name);
                let vloc = *vloc;
                *pos += 1;
                if *pos < n {
                    match &tokens[*pos] {
                        Token::Colon(cloc) => {
                            let cloc = *cloc;
                            *pos += 1;
                            match parse_type(tokens, pos) {
                                Some(t) => Ok(Some(VarTypePair { name, typename: t })),
                                None => Err(SyntaxError::ExpectedType(cloc)),
                            }
                        },
                        _ => Err(SyntaxError::ExpectedColon(vloc)),
                    }
                } else {
                    Err(SyntaxError::ExpectedColon(vloc))
                }
            },
            _ => Ok(None),
        }
    } else {
        Ok(None)
    }
}

/// Parses an `@name : Type` pair at the head of a signature.
pub fn parse_func_type_pair(tokens: &Vec<Token>, pos: &mut usize) -> (r: Result<
    Option<(String, Type)>,
    SyntaxError,
>)
    requires
        *old(pos) <= tokens@.len(),
    ensures
        ({
            let s = sp_parse_func_type_pair(tokens@, *old(pos) as int);
            &&& (s is Miss ==> r == Ok::<Option<(String, Type)>, SyntaxError>(None))
            &&& (s matches Parse::Fail(e) ==> r == Err::<Option<(String, Type)>, SyntaxError>(e))
            &&& (s matches Parse::Hit(v, j) ==> r matches Ok(o) && o matches Some(p) && p.0@ == v.0
                && p.1@ == v.1 && *final(pos) as int == j)
        }),
        r matches Ok(o) && o is Some ==> *old(pos) < *final(pos) <= tokens@.len(),
        r matches Ok(o) && o is None ==> *final(pos) == *old(pos),
        *old(pos) <= *final(pos) <= tokens@.len(),
{
    let n = tokens.len();
    if *pos < n {
        match &tokens[*pos] {
            Token::FuncName(name, floc) => {
                let name = clone_string(name);
                let floc = *floc;
                *pos += 1;
                if *pos < n {
                    match &tokens[*pos] {
                        Token::Colon(cloc) => {
                            let cloc = *cloc;
                            *pos += 1;
                            match parse_type(tokens, pos) {
                                Some(t) => Ok(Some((name, t))),
                                None => Err(SyntaxError::ExpectedType(cloc)),
                            }
                        },
                        _ => Err(SyntaxError::ExpectedColon(floc)),
                    }
                } else {
                    Err(SyntaxError::ExpectedColon(floc))
                }
            },
            _ => Ok(None),
        }
    } else {
        Ok(None)
    }
}

/// Parses the two operand variables of an `add` or `sub`.
pub fn parse_binary_input_vars(tokens: &Vec<Token>, pos: &mut usize) -> (r: Result<
    Option<(Variable, Variable)>,
    SyntaxError,
>)
    requires
        *old(pos) <= tokens@.len(),
    ensures
        ({
            let s = sp_parse_binvars(tokens@, *old(pos) as int);
            &&& (s is Miss ==> r == Ok::<Option<(Variable, Variable)>, SyntaxError>(None))
            &&& (s matches Parse::Fail(e) ==> r == Err::<Option<(Variable, Variable)>, SyntaxError>(
                e,
            ))
            &&& (s matches Parse::Hit(v, j) ==> r matches Ok(o) && o matches Some(p) && p.0@ == v.0
                && p.1@ == v.1 && *final(pos) as int == j)
        }),
        r matches Ok(o) && o is Some ==> *old(pos) < *final(pos) <= tokens@.len(),
        r matches Ok(o) && o is None ==> *final(pos) == *old(pos),
        *old(pos) <= *final(pos) <= tokens@.len(),
{
    let n = tokens.len();
    if *pos < n {
        match &tokens[*pos] {
            Token::VarName(left, lloc) => {
                let left = clone_string(left);
                let lloc = *lloc;
                if *pos + 1 < n {
                    match &tokens[*pos + 1] {
                        Token::VarName(right, _) => {
                            let right = clone_string(right);
                            *pos += 2;
                            Ok(Some((Variable { name: left }, Variable { name: right })))
                        },
                        _ => Err(SyntaxError::ExpectedSecondOperand(lloc)),
                    }
                } else {
                    Err(SyntaxError::ExpectedSecondOperand(lloc))
                }
            },
            _ => Ok(None),
        }
    } else {
        Ok(None)
    }
}

/// Parses a `let` right-hand side: an integer literal or a variable.
pub fn parse_let_value(tokens: &Vec<Token>, pos: &mut usize) -> (r: Option<LetValue>)
    requires
        *old(pos) <= tokens@.len(),
    ensures
        ({
            let s = sp_parse_let_value(tokens@, *old(pos) as int);
            &&& (s is Miss ==> r is None)
            &&& (s matches Parse::Hit(v, j) ==> r matches Some(lv) && lv@ == v
                && *final(pos) as int == j)
        }),
        r is Some ==> *old(pos) < *final(pos) <= tokens@.len(),
        r is None ==> *final(pos) == *old(pos),
        *old(pos) <= *final(pos) <= tokens@.len(),
{
    if *pos < tokens.len() {
        match &tokens[*pos] {
            Token::Integer(v, _) => {
                let v = *v;
                *pos += 1;
                Some(LetValue::LetInteger(v))
            },
            Token::VarName(name, _) => {
                let name = clone_string(name);
                *pos += 1;
                Some(LetValue::LetVariable(Variable { name }))
            },
            _ => None,
        }
    } else {
        None
    }
}

/// Parses a `ret` operand: a variable, or the keyword `void` for none.
pub fn parse_ret_value(tokens: &Vec<Token>, pos: &mut usize) -> (r: Option<Option<Variable>>)
    requires
        *old(pos) <= tokens@.len(),
    ensures
        ({
            let s = sp_parse_ret_value(tokens@, *old(pos) as int);
            &&& (s is Miss ==> r is None)
            &&& (s matches Parse::Hit(v, j) ==> r matches Some(o) && *final(pos) as int == j && (
            match (o, v) {
                (Some(var), Some(nm)) => var@ == nm,
                (None, None) => true,
                _ => false,
            }))
        }),
        r is Some ==> *old(pos) < *final(pos) <= tokens@.len(),
        r is None ==> *final(pos) == *old(pos),
        *old(pos) <= *final(pos) <= tokens@.len(),
{
    if *pos < tokens.len() {
        match &tokens[*pos] {
            Token::VarName(name, _) => {
                let name = clone_string(name);
                *pos += 1;
                Some(Some(Variable { name }))
            },
            Token::VoidKeyword(_) => {
                *pos += 1;
                Some(None)
            },
            _ => None,
        }
    } else {
        None
    }
}

/// Parses an `add` statement.
pub fn parse_add(tokens: &Vec<Token>, pos: &mut usize) -> (r: Result<Option<Stmt>, SyntaxError>)
    requires
        *old(pos) <= tokens@.len(),
    ensures
        ({
            let s = sp_parse_add(tokens@, *old(pos) as int);
            &&& (s is Miss ==> r == Ok::<Option<Stmt>, SyntaxError>(None))
            &&& (s matches Parse::Fail(e) ==> r == Err::<Option<Stmt>, SyntaxError>(e))
            &&& (s matches Parse::Hit(v, j) ==> r matches Ok(o) && o matches Some(st) && st@ == v
                && *final(pos) as int == j)
        }),
        r matches Ok(o) && o is Some ==> *old(pos) < *final(pos) <= tokens@.len(),
        r matches Ok(o) && o is None ==> *final(pos) == *old(pos),
        *old(pos) <= *final(pos) <= tokens@.len(),
{
    let n = tokens.len();
    if *pos < n {
        match &tokens[*pos] {
            Token::AddKeyword(kl) => {
                let kl = *kl;
                *pos += 1;
                match parse_var_type_pair(tokens, pos)? {
                    Some(dest) => match parse_binary_input_vars(tokens, pos)? {
                        Some(ops) => Ok(Some(Stmt::AddInst(dest, ops.0, ops.1))),
                        None => Err(SyntaxError::ExpectedOperands(kl)),
                    },
                    None => Err(SyntaxError::ExpectedVarTypePair(kl)),
                }
            },
            _ => Ok(None),
        }
    } else {
        Ok(None)
    }
}

/// Parses a `sub` statement.
pub fn parse_sub(tokens: &Vec<Token>, pos: &mut usize) -> (r: Result<Option<Stmt>, SyntaxError>)
    requires
        *old(pos) <= tokens@.len(),
    ensures
        ({
            let s = sp_parse_sub(tokens@, *old(pos) as int);
            &&& (s is Miss ==> r == Ok::<Option<Stmt>, SyntaxError>(None))
            &&& (s matches Parse::Fail(e) ==> r == Err::<Option<Stmt>, SyntaxError>(e))
            &&& (s matches Parse::Hit(v, j) ==> r matches Ok(o) && o matches Some(st) && st@ == v
                && *final(pos) as int == j)
        }),
        r matches Ok(o) && o is Some ==> *old(pos) < *final(pos) <= tokens@.len(),
        r matches Ok(o) && o is None ==> *final(pos) == *old(pos),
        *old(pos) <= *final(pos) <= tokens@.len(),
{
    let n = tokens.len();
    if *pos < n {
        match &tokens[*pos] {
            Token::SubKeyword(kl) => {
                let kl = *kl;
                *pos += 1;
                match parse_var_type_pair(tokens, pos)? {
                    Some(dest) => match parse_binary_input_vars(tokens, pos)? {
                        Some(ops) => Ok(Some(Stmt::SubInst(dest, ops.0, ops.1))),
                        None => Err(SyntaxError::ExpectedOperands(kl)),
                    },
                    None => Err(SyntaxError::ExpectedVarTypePair(kl)),
                }
            },
            _ => Ok(None),
        }
    } else {
        Ok(None)
    }
}

/// Parses a `let` statement.
pub fn parse_let(tokens: &Vec<Token>, pos: &mut usize) -> (r: Result<Option<Stmt>, SyntaxError>)
    requires
        *old(pos) <= tokens@.len(),
    ensures
        ({
            let s = sp_parse_let(tokens@, *old(pos) as int);
            &&& (s is Miss ==> r == Ok::<Option<Stmt>, SyntaxError>(None))
            &&& (s matches Parse::Fail(e) ==> r == Err::<Option<Stmt>, SyntaxError>(e))
            &&& (s matches Parse::Hit(v, j) ==> r matches Ok(o) && o matches Some(st) && st@ == v
                && *final(pos) as int == j)
        }),
        r matches Ok(o) && o is Some ==> *old(pos) < *final(pos) <= tokens@.len(),
        r matches Ok(o) && o is None ==> *final(pos) == *old(pos),
        *old(pos) <= *final(pos) <= tokens@.len(),
{
    let n = tokens.len();
    if *pos < n {
        match &tokens[*pos] {
            Token::LetKeyword(kl) => {
                let kl = *kl;
                *pos += 1;
                match parse_var_type_pair(tokens, pos)? {
                    Some(dest) => match parse_let_value(tokens, pos) {
                        Some(v) => Ok(Some(Stmt::LetInst(dest, v))),
                        None => Err(SyntaxError::ExpectedLetValue(kl)),
                    },
                    None => Err(SyntaxError::ExpectedVarTypePair(kl)),
                }
            },
            _ => Ok(None),
        }
    } else {
        Ok(None)
    }
}

/// Parses a `ret` statement.
pub fn parse_ret(tokens: &Vec<Token>, pos: &mut usize) -> (r: Result<Option<Stmt>, SyntaxError>)
    requires
        *old(pos) <= tokens@.len(),
    ensures
        ({
            let s = sp_parse_ret(tokens@, *old(pos) as int);
            &&& (s is Miss ==> r == Ok::<Option<Stmt>, SyntaxError>(None))
            &&& (s matches Parse::Fail(e) ==> r == Err::<Option<Stmt>, SyntaxError>(e))
            &&& (s matches Parse::Hit(v, j) ==> r matches Ok(o) && o matches Some(st) && st@ == v
                && *final(pos) as int == j)
        }),
        r matches Ok(o) && o is Some ==> *old(pos) < *final(pos) <= tokens@.len(),
        r matches Ok(o) && o is None ==> *final(pos) == *old(pos),
        *old(pos) <= *final(pos) <= tokens@.len(),
{
    let n = tokens.len();
    if *pos < n {
        match &tokens[*pos] {
            Token::RetKeyword(kl) => {
                let kl = *kl;
                *pos += 1;
                match parse_ret_value(tokens, pos) {
                    Some(v) => Ok(Some(Stmt::RetInst(v))),
                    None => Err(SyntaxError::ExpectedRetValue(kl)),
                }
            },
            _ => Ok(None),
        }
    } else {
        Ok(None)
    }
}


/// `sp_parse_arg_list` always yields a list or fails; it never declines.
proof fn lemma_arg_list_no_miss(ts: Seq<Token>, i: int)
    requires
        0 <= i,
    ensures
        !(sp_parse_arg_list(ts, i) is Miss),
    decreases ts.len() - i,
{
    match sp_parse_vtp(ts, i) {
        Parse::Hit(v, j) => {
            if i < j <= ts.len() && j < ts.len() && tok_abs(ts[j]) is Comma && !(sp_parse_vtp(
                ts,
                j + 1,
            ) is Miss) {
                lemma_arg_list_no_miss(ts, j + 1);
            }
        },
        _ => {},
    }
}

/// `sp_parse_param_list` always yields a list or fails; it never declines.
proof fn lemma_param_list_no_miss(ts: Seq<Token>, i: int)
    requires
        0 <= i,
    ensures
        !(sp_parse_param_list(ts, i) is Miss),
    decreases ts.len() - i,
{
    if i < ts.len() && tok_abs(ts[i]) is VarName && i + 1 < ts.len() && tok_abs(ts[i + 1]) is Comma
        && i + 2 < ts.len() && tok_abs(ts[i + 2]) is VarName {
        lemma_param_list_no_miss(ts, i + 2);
    }
}

/// `sp_parse_statements` always yields a list or fails; it never declines.
proof fn lemma_statements_no_miss(ts: Seq<Token>, i: int)
    requires
        0 <= i,
    ensures
        !(sp_parse_statements(ts, i) is Miss),
    decreases ts.len() - i,
{
    match sp_parse_statement(ts, i) {
        Parse::Hit(s1, j) => {
            if i < j <= ts.len() {
                lemma_statements_no_miss(ts, j);
            }
        },
        _ => {},
    }
}

/// Parses a comma-separated list of definition sites; empty lists are
/// permitted, but a comma must be followed by another item.
pub fn parse_arg_list(tokens: &Vec<Token>, pos: &mut usize) -> (r: Result<
    Vec<VarTypePair>,
    SyntaxError,
>)
    requires
        *old(pos) <= tokens@.len(),
    ensures
        ({
            let s = sp_parse_arg_list(tokens@, *old(pos) as int);
            &&& (s matches Parse::Hit(l, j) ==> r matches Ok(v) && vtps_view(v@) == l
                && *final(pos) as int == j)
            &&& (s matches Parse::Fail(e) ==> r == Err::<Vec<VarTypePair>, SyntaxError>(e))
        }),
        *old(pos) <= *final(pos) <= tokens@.len(),
{
    let n = tokens.len();
    let ghost pos0 = *old(pos) as int;
    let ghost gh = sp_parse_arg_list(tokens@, pos0);
    let mut args: Vec<VarTypePair> = Vec::new();
    let mut expect_more = false;
    let mut comma_loc = TokLoc { row: 0, col: 0 };
    loop
        invariant_except_break
            n == tokens@.len(),
            pos0 == *old(pos) as int,
            pos0 <= *pos as int <= n as int,
            gh == sp_parse_arg_list(tokens@, pos0),
            expect_more ==> (sp_parse_vtp(tokens@, *pos as int) is Miss ==> gh == Parse::Fail::<
                Seq<VtpV>,
            >(SyntaxError::ExpectedVarTypePair(comma_loc))),
            (if expect_more {
                !(sp_parse_vtp(tokens@, *pos as int) is Miss)
            } else {
                true
            }) ==> {
                &&& (sp_parse_arg_list(tokens@, *pos as int) matches Parse::Hit(rest, j) ==> gh
                    == Parse::Hit::<Seq<VtpV>>(vtps_view(args@) + rest, j))
                &&& (sp_parse_arg_list(tokens@, *pos as int) matches Parse::Fail(e) ==> gh
                    == Parse::Fail::<Seq<VtpV>>(e))
            },
        ensures
            gh matches Parse::Hit(l, j) && l == vtps_view(args@) && j == *pos as int,
            pos0 <= *pos as int <= n as int,
        decreases n - *pos,
    {
        let ghost p = *pos as int;
        match parse_var_type_pair(tokens, pos) {
            Err(e) => {
                proof {
                    assert(sp_parse_arg_list(tokens@, p) == Parse::Fail::<Seq<VtpV>>(e));
                }
                return Err(e);
            },
            Ok(None) => {
                if expect_more {
                    return Err(SyntaxError::ExpectedVarTypePair(comma_loc));
                }
                proof {
                    assert(sp_parse_arg_list(tokens@, p) == Parse::Hit::<Seq<VtpV>>(
                        Seq::empty(),
                        p,
                    ));
                    assert(vtps_view(args@) + Seq::<VtpV>::empty() =~= vtps_view(args@));
                }
                break;
            },
            Ok(Some(v)) => {
                let ghost vv = v@;
                let ghost j = *pos as int;
                let ghost args0 = args@;
                args.push(v);
                proof {
                    assert(vtps_view(args@) =~= vtps_view(args0) + seq![vv]);
                }
                let mut has_comma = false;
                if *pos < n {
                    match &tokens[*pos] {
                        Token::Comma(cl) => {
                            comma_loc = *cl;
                            has_comma = true;
                        },
                        _ => {},
                    }
                }
                if has_comma {
                    *pos += 1;
                    expect_more = true;
                    proof {
                        if !(sp_parse_vtp(tokens@, j + 1) is Miss) {
                            match sp_parse_arg_list(tokens@, j + 1) {
                                Parse::Hit(rest, j2) => {
                                    assert(sp_parse_arg_list(tokens@, p) == Parse::Hit::<
                                        Seq<VtpV>,
                                    >(seq![vv] + rest, j2));
                                    assert(vtps_view(args0) + (seq![vv] + rest) =~= vtps_view(
                                        args@,
                                    ) + rest);
                                },
                                Parse::Fail(e) => {
                                    assert(sp_parse_arg_list(tokens@, p) == Parse::Fail::<
                                        Seq<VtpV>,
                                    >(e));
                                },
                                Parse::Miss => {},
                            }
                        }
                    }
                } else {
                    proof {
                        assert(sp_parse_arg_list(tokens@, p) == Parse::Hit::<Seq<VtpV>>(
                            seq![vv],
                            j,
                        ));
                        assert(vtps_view(args0) + seq![vv] =~= vtps_view(args@));
                        assert(vtps_view(args@) + Seq::<VtpV>::empty() =~= vtps_view(args@));
                    }
                    break;
                }
            },
        }
    }
    Ok(args)
}

/// Parses a comma-separated list of call arguments; empty lists are
/// permitted, but a comma must be followed by another argument.
pub fn parse_param_list(tokens: &Vec<Token>, pos: &mut usize) -> (r: Result<
    Vec<Variable>,
    SyntaxError,
>)
    requires
        *old(pos) <= tokens@.len(),
    ensures
        ({
            let s = sp_parse_param_list(tokens@, *old(pos) as int);
            &&& (s matches Parse::Hit(l, j) ==> r matches Ok(v) && vars_view(v@) == l
                && *final(pos) as int == j)
            &&& (s matches Parse::Fail(e) ==> r == Err::<Vec<Variable>, SyntaxError>(e))
        }),
        *old(pos) <= *final(pos) <= tokens@.len(),
{
    let n = tokens.len();
    let ghost pos0 = *old(pos) as int;
    let ghost gh = sp_parse_param_list(tokens@, pos0);
    let mut params: Vec<Variable> = Vec::new();
    loop
        invariant_except_break
            n == tokens@.len(),
            pos0 == *old(pos) as int,
            pos0 <= *pos as int <= n as int,
            gh == sp_parse_param_list(tokens@, pos0),
            (sp_parse_param_list(tokens@, *pos as int) matches Parse::Hit(rest, j) ==> gh
                == Parse::Hit::<Seq<Seq<char>>>(vars_view(params@) + rest, j)),
            (sp_parse_param_list(tokens@, *pos as int) matches Parse::Fail(e) ==> gh
                == Parse::Fail::<Seq<Seq<char>>>(e)),
        ensures
            gh matches Parse::Hit(l, j) && l == vars_view(params@) && j == *pos as int,
            pos0 <= *pos as int <= n as int,
        decreases n - *pos,
    {
        let ghost p = *pos as int;
        let mut name: Option<String> = None;
        if *pos < n {
            match &tokens[*pos] {
                Token::VarName(nm, _) => {
                    name = Some(clone_string(nm));
                },
                _ => {},
            }
        }
        match name {
            None => {
                proof {
                    assert(sp_parse_param_list(tokens@, p) == Parse::Hit::<Seq<Seq<char>>>(
                        Seq::empty(),
                        p,
                    ));
                    assert(vars_view(params@) + Seq::<Seq<char>>::empty() =~= vars_view(params@));
                }
                break;
            },
            Some(nm) => {
                let ghost nmv = nm@;
                let ghost params0 = params@;
                params.push(Variable { name: nm });
                proof {
                    assert(vars_view(params@) =~= vars_view(params0) + seq![nmv]);
                }
                *pos += 1;
                let mut has_comma = false;
                let mut cl = TokLoc { row: 0, col: 0 };
                if *pos < n {
                    match &tokens[*pos] {
                        Token::Comma(c) => {
                            cl = *c;
                            has_comma = true;
                        },
                        _ => {},
                    }
                }
                if has_comma {
                    let mut next_is_var = false;
                    if *pos + 1 < n {
                        match &tokens[*pos + 1] {
                            Token::VarName(_, _) => {
                                next_is_var = true;
                            },
                            _ => {},
                        }
                    }
                    if !next_is_var {
                        proof {
                            assert(sp_parse_param_list(tokens@, p) == Parse::Fail::<
                                Seq<Seq<char>>,
                            >(SyntaxError::ExpectedParamName(cl)));
                        }
                        return Err(SyntaxError::ExpectedParamName(cl));
                    }
                    *pos += 1;
                    proof {
                        match sp_parse_param_list(tokens@, p + 2) {
                            Parse::Hit(rest, j2) => {
                                assert(sp_parse_param_list(tokens@, p) == Parse::Hit::<
                                    Seq<Seq<char>>,
                                >(seq![nmv] + rest, j2));
                                assert(vars_view(params0) + (seq![nmv] + rest) =~= vars_view(
                                    params@,
                                ) + rest);
                            },
                            Parse::Fail(e) => {
                                assert(sp_parse_param_list(tokens@, p) == Parse::Fail::<
                                    Seq<Seq<char>>,
                                >(e));
                            },
                            Parse::Miss => {},
                        }
                    }
                } else {
                    proof {
                        assert(sp_parse_param_list(tokens@, p) == Parse::Hit::<Seq<Seq<char>>>(
                            seq![nmv],
                            p + 1,
                        ));
                        assert(vars_view(params0) + seq![nmv] =~= vars_view(params@));
                        assert(vars_view(params@) + Seq::<Seq<char>>::empty() =~= vars_view(
                            params@,
                        ));
                    }
                    break;
                }
            },
        }
    }
    Ok(params)
}

/// Parses a function signature: `@name : Type ( arguments )`.
pub fn parse_func_sig(tokens: &Vec<Token>, pos: &mut usize) -> (r: Result<
    Option<FuncSig>,
    SyntaxError,
>)
    requires
        *old(pos) <= tokens@.len(),
    ensures
        ({
            let s = sp_parse_func_sig(tokens@, *old(pos) as int);
            &&& (s is Miss ==> r == Ok::<Option<FuncSig>, SyntaxError>(None))
            &&& (s matches Parse::Fail(e) ==> r == Err::<Option<FuncSig>, SyntaxError>(e))
            &&& (s matches Parse::Hit(v, j) ==> r matches Ok(o) && o matches Some(sig) && sig@ == v
                && *final(pos) as int == j)
        }),
        r matches Ok(o) && o is Some ==> *old(pos) < *final(pos) <= tokens@.len(),
        r matches Ok(o) && o is None ==> *final(pos) == *old(pos),
        *old(pos) <= *final(pos) <= tokens@.len(),
{
    let n = tokens.len();
    match parse_func_type_pair(tokens, pos)? {
        None => Ok(None),
        Some((name, typ)) => {
            let mut lp: Option<TokLoc> = None;
            if *pos < n {
                match &tokens[*pos] {
                    Token::LParen(l) => {
                        lp = Some(*l);
                    },
                    _ => {},
                }
            }
            match lp {
                None => Err(SyntaxError::ExpectedLParen),
                Some(lploc) => {
                    proof {
                        lemma_arg_list_no_miss(tokens@, *pos + 1);
                    }
                    *pos += 1;
                    let args = parse_arg_list(tokens, pos)?;
                    let mut has_rp = false;
                    if *pos < n {
                        match &tokens[*pos] {
                            Token::RParen(_) => {
                                has_rp = true;
                            },
                            _ => {},
                        }
                    }
                    if has_rp {
                        *pos += 1;
                        Ok(Some(FuncSig { name, typename: typ, arglist: args }))
                    } else {
                        Err(SyntaxError::ExpectedRParen(lploc))
                    }
                },
            }
        },
    }
}

/// Parses a `call` statement: `call %d:T @f ( arguments )`.
pub fn parse_func_call(tokens: &Vec<Token>, pos: &mut usize) -> (r: Result<
    Option<Stmt>,
    SyntaxError,
>)
    requires
        *old(pos) <= tokens@.len(),
    ensures
        ({
            let s = sp_parse_func_call(tokens@, *old(pos) as int);
            &&& (s is Miss ==> r == Ok::<Option<Stmt>, SyntaxError>(None))
            &&& (s matches Parse::Fail(e) ==> r == Err::<Option<Stmt>, SyntaxError>(e))
            &&& (s matches Parse::Hit(v, j) ==> r matches Ok(o) && o matches Some(st) && st@ == v
                && *final(pos) as int == j)
        }),
        r matches Ok(o) && o is Some ==> *old(pos) < *final(pos) <= tokens@.len(),
        r matches Ok(o) && o is None ==> *final(pos) == *old(pos),
        *old(pos) <= *final(pos) <= tokens@.len(),
{
    let n = tokens.len();
    let mut is_call = false;
    if *pos < n {
        match &tokens[*pos] {
            Token::CallKeyword(_) => {
                is_call = true;
            },
            _ => {},
        }
    }
    if !is_call {
        return Ok(None);
    }
    *pos += 1;
    match parse_var_type_pair(tokens, pos)? {
        None => Err(SyntaxError::ExpectedCallDest),
        Some(dest) => {
            let mut fname: Option<String> = None;
            if *pos < n {
                match &tokens[*pos] {
                    Token::FuncName(nm, _) => {
                        fname = Some(clone_string(nm));
                    },
                    _ => {},
                }
            }
            match fname {
                None => Err(SyntaxError::ExpectedFuncName),
                Some(fname) => {
                    *pos += 1;
                    let mut has_lp = false;
                    if *pos < n {
                        match &tokens[*pos] {
                            Token::LParen(_) => {
                                has_lp = true;
                            },
                            _ => {},
                        }
                    }
                    if !has_lp {
                        return Err(SyntaxError::ExpectedCallLParen);
                    }
                    proof {
                        lemma_param_list_no_miss(tokens@, *pos + 1);
                    }
                    *pos += 1;
                    let params = parse_param_list(tokens, pos)?;
                    let mut has_rp = false;
                    if *pos < n {
                        match &tokens[*pos] {
                            Token::RParen(_) => {
                                has_rp = true;
                            },
                            _ => {},
                        }
                    }
                    if has_rp {
                        *pos += 1;
                        Ok(Some(Stmt::CallInst(dest, Function { name: fname }, params)))
                    } else {
                        Err(SyntaxError::ExpectedCallRParen)
                    }
                },
            }
        },
    }
}

/// Parses one statement, directed by its leading keyword.
pub fn parse_statement(tokens: &Vec<Token>, pos: &mut usize) -> (r: Result<
    Option<Stmt>,
    SyntaxError,
>)
    requires
        *old(pos) <= tokens@.len(),
    ensures
        ({
            let s = sp_parse_statement(tokens@, *old(pos) as int);
            &&& (s is Miss ==> r == Ok::<Option<Stmt>, SyntaxError>(None))
            &&& (s matches Parse::Fail(e) ==> r == Err::<Option<Stmt>, SyntaxError>(e))
            &&& (s matches Parse::Hit(v, j) ==> r matches Ok(o) && o matches Some(st) && st@ == v
                && *final(pos) as int == j)
        }),
        r matches Ok(o) && o is Some ==> *old(pos) < *final(pos) <= tokens@.len(),
        r matches Ok(o) && o is None ==> *final(pos) == *old(pos),
        *old(pos) <= *final(pos) <= tokens@.len(),
{
    match parse_add(tokens, pos)? {
        Some(s) => Ok(Some(s)),
        None => match parse_sub(tokens, pos)? {
            Some(s) => Ok(Some(s)),
            None => match parse_let(tokens, pos)? {
                Some(s) => Ok(Some(s)),
                None => match parse_ret(tokens, pos)? {
                    Some(s) => Ok(Some(s)),
                    None => parse_func_call(tokens, pos),
                },
            },
        },
    }
}

/// Parses a run of statements, ending cleanly at the first token that
/// starts none.
pub fn parse_statements(tokens: &Vec<Token>, pos: &mut usize) -> (r: Result<Vec<Stmt>, SyntaxError>)
    requires
        *old(pos) <= tokens@.len(),
    ensures
        ({
            let s = sp_parse_statements(tokens@, *old(pos) as int);
            &&& (s matches Parse::Hit(l, j) ==> r matches Ok(v) && stmts_view(v@) == l
                && *final(pos) as int == j)
            &&& (s matches Parse::Fail(e) ==> r == Err::<Vec<Stmt>, SyntaxError>(e))
        }),
        *old(pos) <= *final(pos) <= tokens@.len(),
{
    let n = tokens.len();
    let ghost pos0 = *old(pos) as int;
    let ghost gh = sp_parse_statements(tokens@, pos0);
    let mut stmts: Vec<Stmt> = Vec::new();
    loop
        invariant_except_break
            n == tokens@.len(),
            pos0 == *old(pos) as int,
            pos0 <= *pos as int <= n as int,
            gh == sp_parse_statements(tokens@, pos0),
            (sp_parse_statements(tokens@, *pos as int) matches Parse::Hit(rest, j) ==> gh
                == Parse::Hit::<Seq<StmtV>>(stmts_view(stmts@) + rest, j)),
            (sp_parse_statements(tokens@, *pos as int) matches Parse::Fail(e) ==> gh
                == Parse::Fail::<Seq<StmtV>>(e)),
        ensures
            gh matches Parse::Hit(l, j) && l == stmts_view(stmts@) && j == *pos as int,
            pos0 <= *pos as int <= n as int,
        decreases n - *pos,
    {
        let ghost p = *pos as int;
        match parse_statement(tokens, pos) {
            Err(e) => {
                proof {
                    assert(sp_parse_statements(tokens@, p) == Parse::Fail::<Seq<StmtV>>(e));
                }
                return Err(e);
            },
            Ok(None) => {
                proof {
                    assert(sp_parse_statements(tokens@, p) == Parse::Hit::<Seq<StmtV>>(
                        Seq::empty(),
                        p,
                    ));
                    assert(stmts_view(stmts@) + Seq::<StmtV>::empty() =~= stmts_view(stmts@));
                }
                break;
            },
            Ok(Some(st)) => {
                let ghost stv = st@;
                let ghost j = *pos as int;
                let ghost stmts0 = stmts@;
                stmts.push(st);
                proof {
                    assert(stmts_view(stmts@) =~= stmts_view(stmts0) + seq![stv]);
                    match sp_parse_statements(tokens@, j) {
                        Parse::Hit(rest, j2) => {
                            assert(sp_parse_statements(tokens@, p) == Parse::Hit::<Seq<StmtV>>(
                                seq![stv] + rest,
                                j2,
                            ));
                            assert(stmts_view(stmts0) + (seq![stv] + rest) =~= stmts_view(stmts@)
                                + rest);
                        },
                        Parse::Fail(e) => {
                            assert(sp_parse_statements(tokens@, p) == Parse::Fail::<Seq<StmtV>>(e));
                        },
                        Parse::Miss => {},
                    }
                }
            },
        }
    }
    Ok(stmts)
}

/// Parses a whole function definition: `func` signature `{` statements `}`.
pub fn parse_func(tokens: &Vec<Token>, pos: &mut usize) -> (r: Result<Option<Node>, SyntaxError>)
    requires
        *old(pos) <= tokens@.len(),
    ensures
        ({
            let s = sp_parse_func(tokens@, *old(pos) as int);
            &&& (s is Miss ==> r == Ok::<Option<Node>, SyntaxError>(None))
            &&& (s matches Parse::Fail(e) ==> r == Err::<Option<Node>, SyntaxError>(e))
            &&& (s matches Parse::Hit(v, j) ==> r matches Ok(o) && o matches Some(node) && node@
                == v && *final(pos) as int == j)
        }),
        r matches Ok(o) && o is Some ==> *old(pos) < *final(pos) <= tokens@.len(),
        r matches Ok(o) && o is None ==> *final(pos) == *old(pos),
        *old(pos) <= *final(pos) <= tokens@.len(),
{
    let n = tokens.len();
    let mut kl: Option<TokLoc> = None;
    if *pos < n {
        match &tokens[*pos] {
            Token::FuncKeyword(l) => {
                kl = Some(*l);
            },
            _ => {},
        }
    }
    match kl {
        None => Ok(None),
        Some(kl) => {
            *pos += 1;
            match parse_func_sig(tokens, pos)? {
                None => Err(SyntaxError::ExpectedFuncSig),
                Some(sig) => {
                    let mut bl: Option<TokLoc> = None;
                    if *pos < n {
                        match &tokens[*pos] {
                            Token::LBrace(l) => {
                                bl = Some(*l);
                            },
                            _ => {},
                        }
                    }
                    match bl {
                        None => Err(SyntaxError::ExpectedLBrace(kl)),
                        Some(bl) => {
                            proof {
                                lemma_statements_no_miss(tokens@, *pos + 1);
                            }
                            *pos += 1;
                            let body = parse_statements(tokens, pos)?;
                            let mut has_rb = false;
                            if *pos < n {
                                match &tokens[*pos] {
                                    Token::RBrace(_) => {
                                        has_rb = true;
                                    },
                                    _ => {},
                                }
                            }
                            if has_rb {
                                *pos += 1;
                                Ok(Some(Node::FuncDef(sig, body)))
                            } else {
                                Err(SyntaxError::ExpectedRBrace(bl))
                            }
                        },
                    }
                },
            }
        },
    }
}

/// Parses the function definition a token sequence begins with. Returns
/// `Ok(None)` where the tokens do not begin with `func`; tokens after a
/// complete definition are ignored.
pub fn parse(tokens: &Vec<Token>) -> (r: Result<Option<Node>, SyntaxError>)
    ensures
        ({
            match sp_parse(tokens@) {
                Ok(o) => match o {
                    None => r matches Ok(ro) && ro is None,
                    Some(nv) => r matches Ok(ro) && ro matches Some(node) && node@ == nv,
                },
                Err(e) => r == Err::<Option<Node>, SyntaxError>(e),
            }
        }),
{
    let mut pos: usize = 0;
    parse_func(tokens, &mut pos)
}


// ------------------------------------------------------------------
// Printing and the round trip
// ------------------------------------------------------------------

/// The types the grammar can spell: the six primitive numeric types.
pub open spec fn wf_type(t: TypeV) -> bool {
    ||| t is I8
    ||| t is I16
    ||| t is I32
    ||| t is I64
    ||| t is F32
    ||| t is F64
}

pub open spec fn wf_vtp(v: VtpV) -> bool {
    wf_type(v.typ)
}

pub open spec fn wf_stmt(s: StmtV) -> bool {
    match s {
        StmtV::Add(d, _, _) => wf_vtp(d),
        StmtV::Sub(d, _, _) => wf_vtp(d),
        StmtV::Let(d, _) => wf_vtp(d),
        StmtV::Ret(_) => true,
        StmtV::Call(d, _, _) => wf_vtp(d),
    }
}

pub open spec fn wf_sig(sig: FuncSigV) -> bool {
    wf_type(sig.typ) && forall|i: int| 0 <= i < sig.args.len() ==> wf_vtp(#[trigger] sig.args[i])
}

/// A syntax tree the grammar can spell back.
pub open spec fn wf_node(nv: NodeV) -> bool {
    match nv {
        NodeV::FuncDef(sig, body) => wf_sig(sig) && forall|j: int|
            0 <= j < body.len() ==> wf_stmt(#[trigger] body[j]),
    }
}

/// The keyword a type prints as.
pub open spec fn type_tokens(t: TypeV) -> Seq<TokenAbs> {
    match t {
        TypeV::I8 => seq![TokenAbs::I8Keyword],
        TypeV::I16 => seq![TokenAbs::I16Keyword],
        TypeV::I32 => seq![TokenAbs::I32Keyword],
        TypeV::I64 => seq![TokenAbs::I64Keyword],
        TypeV::F32 => seq![TokenAbs::F32Keyword],
        TypeV::F64 => seq![TokenAbs::F64Keyword],
        _ => seq![TokenAbs::VoidKeyword],
    }
}

/// `%name : Type`.
pub open spec fn vtp_tokens(v: VtpV) -> Seq<TokenAbs> {
    seq![TokenAbs::VarName(v.name), TokenAbs::Colon] + type_tokens(v.typ)
}

pub open spec fn letvalue_tokens(v: LetValueV) -> Seq<TokenAbs> {
    match v {
        LetValueV::Int(i) => seq![TokenAbs::Integer(i)],
        LetValueV::Var(nm) => seq![TokenAbs::VarName(nm)],
    }
}

/// A comma-separated parameter list of plain variable names.
pub open spec fn params_tokens(ps: Seq<Seq<char>>) -> Seq<TokenAbs>
    decreases ps.len(),
{
    if ps.len() == 0 {
        Seq::empty()
    } else if ps.len() == 1 {
        seq![TokenAbs::VarName(ps[0])]
    } else {
        seq![TokenAbs::VarName(ps[0]), TokenAbs::Comma] + params_tokens(ps.drop_first())
    }
}

/// A comma-separated list of definition sites.
pub open spec fn args_tokens(args: Seq<VtpV>) -> Seq<TokenAbs>
    decreases args.len(),
{
    if args.len() == 0 {
        Seq::empty()
    } else if args.len() == 1 {
        vtp_tokens(args[0])
    } else {
        vtp_tokens(args[0]) + seq![TokenAbs::Comma] + args_tokens(args.drop_first())
    }
}

pub open spec fn stmt_tokens(s: StmtV) -> Seq<TokenAbs> {
    match s {
        StmtV::Add(d, l, r) => seq![TokenAbs::AddKeyword] + vtp_tokens(d) + seq![
            TokenAbs::VarName(l),
            TokenAbs::VarName(r),
        ],
        StmtV::Sub(d, l, r) => seq![TokenAbs::SubKeyword] + vtp_tokens(d) + seq![
            TokenAbs::VarName(l),
            TokenAbs::VarName(r),
        ],
        StmtV::Let(d, v) => seq![TokenAbs::LetKeyword] + vtp_tokens(d) + letvalue_tokens(v),
        StmtV::Ret(o) => match o {
            Some(nm) => seq![TokenAbs::RetKeyword, TokenAbs::VarName(nm)],
            None => seq![TokenAbs::RetKeyword, TokenAbs::VoidKeyword],
        },
        StmtV::Call(d, f, ps) => seq![TokenAbs::CallKeyword] + vtp_tokens(d) + seq![
            TokenAbs::FuncName(f),
            TokenAbs::LParen,
        ] + params_tokens(ps) + seq![TokenAbs::RParen],
    }
}

pub open spec fn stmts_tokens(body: Seq<StmtV>) -> Seq<TokenAbs>
    decreases body.len(),
{
    if body.len() == 0 {
        Seq::empty()
    } else {
        stmt_tokens(body[0]) + stmts_tokens(body.drop_first())
    }
}

pub open spec fn sig_tokens(sig: FuncSigV) -> Seq<TokenAbs> {
    seq![TokenAbs::FuncName(sig.name), TokenAbs::Colon] + type_tokens(sig.typ) + seq![
        TokenAbs::LParen,
    ] + args_tokens(sig.args) + seq![TokenAbs::RParen]
}

/// The token spelling of a whole function definition.
pub open spec fn node_tokens(nv: NodeV) -> Seq<TokenAbs> {
    match nv {
        NodeV::FuncDef(sig, body) => seq![TokenAbs::FuncKeyword] + sig_tokens(sig) + seq![
            TokenAbs::LBrace,
        ] + stmts_tokens(body) + seq![TokenAbs::RBrace],
    }
}

/// Whether the tokens from position `i` on spell out the given shadows.
pub open spec fn abs_at(ts: Seq<Token>, i: int, pat: Seq<TokenAbs>) -> bool {
    &&& 0 <= i
    &&& i + pat.len() <= ts.len()
    &&& forall|x: int| i <= x < i + pat.len() ==> tok_abs(#[trigger] ts[x]) == pat[x - i]
}

proof fn lemma_abs_at_app(ts: Seq<Token>, i: int, a: Seq<TokenAbs>, b: Seq<TokenAbs>)
    requires
        abs_at(ts, i, a + b),
    ensures
        abs_at(ts, i, a),
        abs_at(ts, i + a.len(), b),
{
    assert forall|x: int| i <= x < i + a.len() implies tok_abs(#[trigger] ts[x]) == a[x - i] by {
        assert((a + b)[x - i] == a[x - i]);
    }
    assert forall|x: int|
        i + a.len() <= x < i + a.len() + b.len() implies tok_abs(#[trigger] ts[x]) == b[x - i
        - a.len()] by {
        assert((a + b)[x - i] == b[x - i - a.len()]);
    }
}

proof fn rt_type(ts: Seq<Token>, i: int, t: TypeV)
    requires
        wf_type(t),
        abs_at(ts, i, type_tokens(t)),
    ensures
        sp_parse_type(ts, i) == Parse::Hit::<TypeV>(t, i + 1),
{
    assert(tok_abs(ts[i]) == type_tokens(t)[0]);
}

proof fn rt_vtp(ts: Seq<Token>, i: int, v: VtpV)
    requires
        wf_vtp(v),
        abs_at(ts, i, vtp_tokens(v)),
    ensures
        vtp_tokens(v).len() == 3,
        sp_parse_vtp(ts, i) == Parse::Hit::<VtpV>(v, i + 3),
{
    lemma_abs_at_app(ts, i, seq![TokenAbs::VarName(v.name), TokenAbs::Colon], type_tokens(v.typ));
    assert(tok_abs(ts[i]) == TokenAbs::VarName(v.name));
    assert(tok_abs(ts[i + 1]) == TokenAbs::Colon);
    rt_type(ts, i + 2, v.typ);
    assert(sp_parse_vtp(ts, i) == Parse::Hit::<VtpV>(VtpV { name: v.name, typ: v.typ }, i + 3));
    assert(VtpV { name: v.name, typ: v.typ } == v);
}

proof fn rt_params(ts: Seq<Token>, i: int, ps: Seq<Seq<char>>)
    requires
        abs_at(ts, i, params_tokens(ps)),
        i + params_tokens(ps).len() < ts.len(),
        tok_abs(ts[i + params_tokens(ps).len()]) is RParen,
    ensures
        sp_parse_param_list(ts, i) == Parse::Hit::<Seq<Seq<char>>>(
            ps,
            i + params_tokens(ps).len(),
        ),
    decreases ps.len(),
{
    if ps.len() == 0 {
        assert(tok_abs(ts[i]) is RParen);
        assert(ps =~= Seq::<Seq<char>>::empty());
    } else if ps.len() == 1 {
        assert(tok_abs(ts[i]) == TokenAbs::VarName(ps[0]));
        assert(tok_abs(ts[i + 1]) is RParen);
        assert(ps =~= seq![ps[0]]);
    } else {
        lemma_abs_at_app(
            ts,
            i,
            seq![TokenAbs::VarName(ps[0]), TokenAbs::Comma],
            params_tokens(ps.drop_first()),
        );
        assert(tok_abs(ts[i]) == TokenAbs::VarName(ps[0]));
        assert(tok_abs(ts[i + 1]) == TokenAbs::Comma);
        let rest = ps.drop_first();
        assert(rest.len() >= 1);
        assert(params_tokens(rest)[0] == TokenAbs::VarName(rest[0]));
        assert(tok_abs(ts[i + 2]) == TokenAbs::VarName(rest[0]));
        rt_params(ts, i + 2, rest);
        assert(seq![ps[0]] + rest =~= ps);
    }
}

proof fn rt_args(ts: Seq<Token>, i: int, args: Seq<VtpV>)
    requires
        forall|x: int| 0 <= x < args.len() ==> wf_vtp(#[trigger] args[x]),
        abs_at(ts, i, args_tokens(args)),
        i + args_tokens(args).len() < ts.len(),
        tok_abs(ts[i + args_tokens(args).len()]) is RParen,
    ensures
        sp_parse_arg_list(ts, i) == Parse::Hit::<Seq<VtpV>>(args, i + args_tokens(args).len()),
    decreases args.len(),
{
    if args.len() == 0 {
        assert(tok_abs(ts[i]) is RParen);
        assert(sp_parse_vtp(ts, i) is Miss);
        assert(args =~= Seq::<VtpV>::empty());
    } else if args.len() == 1 {
        rt_vtp(ts, i, args[0]);
        assert(tok_abs(ts[i + 3]) is RParen);
        assert(args =~= seq![args[0]]);
    } else {
        lemma_abs_at_app(ts, i, vtp_tokens(args[0]) + seq![TokenAbs::Comma], args_tokens(args.drop_first()));
        lemma_abs_at_app(ts, i, vtp_tokens(args[0]), seq![TokenAbs::Comma]);
        rt_vtp(ts, i, args[0]);
        assert(tok_abs(ts[i + 3]) == TokenAbs::Comma);
        let rest = args.drop_first();
        assert(rest.len() >= 1);
        assert forall|x: int| 0 <= x < rest.len() implies wf_vtp(#[trigger] rest[x]) by {
            assert(rest[x] == args[x + 1]);
        }
        rt_args(ts, i + 4, rest);
        assert(args_tokens(rest)[0] == vtp_tokens(rest[0])[0]) by {
            if rest.len() == 1 {
            } else {
                assert(args_tokens(rest)[0] == (vtp_tokens(rest[0]) + seq![TokenAbs::Comma]
                    + args_tokens(rest.drop_first()))[0]);
            }
        }
        assert(tok_abs(ts[i + 4]) == TokenAbs::VarName(rest[0].name));
        assert(!(sp_parse_vtp(ts, i + 4) is Miss));
        assert(seq![args[0]] + rest =~= args);
    }
}

proof fn rt_stmt(ts: Seq<Token>, i: int, s: StmtV)
    requires
        wf_stmt(s),
        abs_at(ts, i, stmt_tokens(s)),
    ensures
        stmt_tokens(s).len() >= 2,
        sp_parse_statement(ts, i) == Parse::Hit::<StmtV>(s, i + stmt_tokens(s).len()),
{
    match s {
        StmtV::Add(d, l, r) => {
            lemma_abs_at_app(
                ts,
                i,
                seq![TokenAbs::AddKeyword] + vtp_tokens(d),
                seq![TokenAbs::VarName(l), TokenAbs::VarName(r)],
            );
            lemma_abs_at_app(ts, i, seq![TokenAbs::AddKeyword], vtp_tokens(d));
            assert(tok_abs(ts[i]) == TokenAbs::AddKeyword);
            rt_vtp(ts, i + 1, d);
            assert(tok_abs(ts[i + 4]) == TokenAbs::VarName(l));
            assert(tok_abs(ts[i + 5]) == TokenAbs::VarName(r));
            assert(sp_parse_binvars(ts, i + 4) == Parse::Hit::<(Seq<char>, Seq<char>)>(
                (l, r),
                i + 6,
            ));
        },
        StmtV::Sub(d, l, r) => {
            lemma_abs_at_app(
                ts,
                i,
                seq![TokenAbs::SubKeyword] + vtp_tokens(d),
                seq![TokenAbs::VarName(l), TokenAbs::VarName(r)],
            );
            lemma_abs_at_app(ts, i, seq![TokenAbs::SubKeyword], vtp_tokens(d));
            assert(tok_abs(ts[i]) == TokenAbs::SubKeyword);
            rt_vtp(ts, i + 1, d);
            assert(tok_abs(ts[i + 4]) == TokenAbs::VarName(l));
            assert(tok_abs(ts[i + 5]) == TokenAbs::VarName(r));
            assert(sp_parse_add(ts, i) is Miss);
        },
        StmtV::Let(d, v) => {
            lemma_abs_at_app(ts, i, seq![TokenAbs::LetKeyword] + vtp_tokens(d), letvalue_tokens(v));
            lemma_abs_at_app(ts, i, seq![TokenAbs::LetKeyword], vtp_tokens(d));
            assert(tok_abs(ts[i]) == TokenAbs::LetKeyword);
            rt_vtp(ts, i + 1, d);
            assert(tok_abs(ts[i + 4]) == letvalue_tokens(v)[0]);
            assert(sp_parse_add(ts, i) is Miss);
            assert(sp_parse_sub(ts, i) is Miss);
        },
        StmtV::Ret(o) => {
            assert(tok_abs(ts[i]) == TokenAbs::RetKeyword);
            match o {
                Some(nm) => {
                    assert(tok_abs(ts[i + 1]) == TokenAbs::VarName(nm));
                },
                None => {
                    assert(tok_abs(ts[i + 1]) == TokenAbs::VoidKeyword);
                },
            }
            assert(sp_parse_add(ts, i) is Miss);
            assert(sp_parse_sub(ts, i) is Miss);
            assert(sp_parse_let(ts, i) is Miss);
        },
        StmtV::Call(d, f, ps) => {
            let head = seq![TokenAbs::CallKeyword] + vtp_tokens(d) + seq![
                TokenAbs::FuncName(f),
                TokenAbs::LParen,
            ];
            lemma_abs_at_app(ts, i, head + params_tokens(ps), seq![TokenAbs::RParen]);
            lemma_abs_at_app(ts, i, head, params_tokens(ps));
            lemma_abs_at_app(
                ts,
                i,
                seq![TokenAbs::CallKeyword] + vtp_tokens(d),
                seq![TokenAbs::FuncName(f), TokenAbs::LParen],
            );
            lemma_abs_at_app(ts, i, seq![TokenAbs::CallKeyword], vtp_tokens(d));
            assert(tok_abs(ts[i]) == TokenAbs::CallKeyword);
            rt_vtp(ts, i + 1, d);
            assert(tok_abs(ts[i + 4]) == TokenAbs::FuncName(f));
            assert(tok_abs(ts[i + 5]) == TokenAbs::LParen);
            assert(tok_abs(ts[i + 6 + params_tokens(ps).len()]) is RParen);
            rt_params(ts, i + 6, ps);
            assert(sp_parse_add(ts, i) is Miss);
            assert(sp_parse_sub(ts, i) is Miss);
            assert(sp_parse_let(ts, i) is Miss);
            assert(sp_parse_ret(ts, i) is Miss);
        },
    }
}

proof fn rt_stmts(ts: Seq<Token>, i: int, body: Seq<StmtV>)
    requires
        forall|j: int| 0 <= j < body.len() ==> wf_stmt(#[trigger] body[j]),
        abs_at(ts, i, stmts_tokens(body)),
        i + stmts_tokens(body).len() < ts.len(),
        tok_abs(ts[i + stmts_tokens(body).len()]) is RBrace,
    ensures
        sp_parse_statements(ts, i) == Parse::Hit::<Seq<StmtV>>(
            body,
            i + stmts_tokens(body).len(),
        ),
    decreases body.len(),
{
    if body.len() == 0 {
        assert(tok_abs(ts[i]) is RBrace);
        assert(sp_parse_add(ts, i) is Miss);
        assert(sp_parse_sub(ts, i) is Miss);
        assert(sp_parse_let(ts, i) is Miss);
        assert(sp_parse_ret(ts, i) is Miss);
        assert(sp_parse_func_call(ts, i) is Miss);
        assert(body =~= Seq::<StmtV>::empty());
    } else {
        lemma_abs_at_app(ts, i, stmt_tokens(body[0]), stmts_tokens(body.drop_first()));
        rt_stmt(ts, i, body[0]);
        let rest = body.drop_first();
        assert forall|j: int| 0 <= j < rest.len() implies wf_stmt(#[trigger] rest[j]) by {
            assert(rest[j] == body[j + 1]);
        }
        rt_stmts(ts, i + stmt_tokens(body[0]).len(), rest);
        assert(seq![body[0]] + rest =~= body);
    }
}

proof fn rt_sig(ts: Seq<Token>, i: int, sig: FuncSigV)
    requires
        wf_sig(sig),
        abs_at(ts, i, sig_tokens(sig)),
    ensures
        sp_parse_func_sig(ts, i) == Parse::Hit::<FuncSigV>(sig, i + sig_tokens(sig).len()),
{
    let head = seq![TokenAbs::FuncName(sig.name), TokenAbs::Colon] + type_tokens(sig.typ) + seq![
        TokenAbs::LParen,
    ];
    lemma_abs_at_app(ts, i, head + args_tokens(sig.args), seq![TokenAbs::RParen]);
    lemma_abs_at_app(ts, i, head, args_tokens(sig.args));
    lemma_abs_at_app(
        ts,
        i,
        seq![TokenAbs::FuncName(sig.name), TokenAbs::Colon],
        type_tokens(sig.typ) + seq![TokenAbs::LParen],
    );
    lemma_abs_at_app(ts, i + 2, type_tokens(sig.typ), seq![TokenAbs::LParen]);
    assert(tok_abs(ts[i]) == TokenAbs::FuncName(sig.name));
    assert(tok_abs(ts[i + 1]) == TokenAbs::Colon);
    rt_type(ts, i + 2, sig.typ);
    assert(tok_abs(ts[i + 3]) == TokenAbs::LParen);
    assert(tok_abs(ts[i + 4 + args_tokens(sig.args).len()]) is RParen);
    rt_args(ts, i + 4, sig.args);
    assert(sp_parse_func_type_pair(ts, i) == Parse::Hit::<(Seq<char>, TypeV)>(
        (sig.name, sig.typ),
        i + 3,
    ));
    assert(FuncSigV { name: sig.name, typ: sig.typ, args: sig.args } == sig);
}

/// The parser inverts the printer: any token sequence whose shadows begin
/// with the spelling of a well-formed tree parses back to that very tree,
/// whatever locations the tokens carry and whatever follows the spelling.
pub proof fn lemma_parse_round_trip(ts: Seq<Token>, nv: NodeV)
    requires
        wf_node(nv),
        abs_at(ts, 0, node_tokens(nv)),
    ensures
        sp_parse(ts) == Ok::<Option<NodeV>, SyntaxError>(Some(nv)),
{
    let sig = nv->FuncDef_0;
    let body = nv->FuncDef_1;
    let head = seq![TokenAbs::FuncKeyword] + sig_tokens(sig) + seq![TokenAbs::LBrace];
    lemma_abs_at_app(ts, 0, head + stmts_tokens(body), seq![TokenAbs::RBrace]);
    lemma_abs_at_app(ts, 0, head, stmts_tokens(body));
    lemma_abs_at_app(ts, 0, seq![TokenAbs::FuncKeyword] + sig_tokens(sig), seq![TokenAbs::LBrace]);
    lemma_abs_at_app(ts, 0, seq![TokenAbs::FuncKeyword], sig_tokens(sig));
    assert(tok_abs(ts[0]) == TokenAbs::FuncKeyword);
    rt_sig(ts, 1, sig);
    assert(tok_abs(ts[1 + sig_tokens(sig).len() as int]) == TokenAbs::LBrace);
    assert(tok_abs(ts[head.len() as int + stmts_tokens(body).len() as int]) is RBrace);
    rt_stmts(ts, head.len() as int, body);
    assert(NodeV::FuncDef(sig, body) == nv);
}


proof fn wf_parse_vtp(ts: Seq<Token>, i: int)
    ensures
        sp_parse_vtp(ts, i) matches Parse::Hit(v, j) ==> wf_vtp(v),
{
}

proof fn wf_parse_arg_list(ts: Seq<Token>, i: int)
    ensures
        sp_parse_arg_list(ts, i) matches Parse::Hit(l, j) ==> forall|x: int|
            0 <= x < l.len() ==> wf_vtp(#[trigger] l[x]),
    decreases ts.len() - i,
{
    match sp_parse_vtp(ts, i) {
        Parse::Hit(v, j) => {
            wf_parse_vtp(ts, i);
            if i < j <= ts.len() && j < ts.len() && tok_abs(ts[j]) is Comma {
                if !(sp_parse_vtp(ts, j + 1) is Miss) {
                    wf_parse_arg_list(ts, j + 1);
                    match sp_parse_arg_list(ts, j + 1) {
                        Parse::Hit(rest, j2) => {
                            assert forall|x: int|
                                0 <= x < (seq![v] + rest).len() implies wf_vtp(
                                #[trigger] (seq![v] + rest)[x],
                            ) by {
                                if x > 0 {
                                    assert((seq![v] + rest)[x] == rest[x - 1]);
                                }
                            }
                        },
                        _ => {},
                    }
                }
            } else {
                assert forall|x: int| 0 <= x < seq![v].len() implies wf_vtp(
                    #[trigger] seq![v][x],
                ) by {}
            }
        },
        _ => {},
    }
}

proof fn wf_parse_statement(ts: Seq<Token>, i: int)
    ensures
        sp_parse_statement(ts, i) matches Parse::Hit(s, j) ==> wf_stmt(s),
{
    wf_parse_vtp(ts, i + 1);
}

proof fn wf_parse_statements(ts: Seq<Token>, i: int)
    ensures
        sp_parse_statements(ts, i) matches Parse::Hit(l, j) ==> forall|x: int|
            0 <= x < l.len() ==> wf_stmt(#[trigger] l[x]),
    decreases ts.len() - i,
{
    match sp_parse_statement(ts, i) {
        Parse::Hit(s1, j) => {
            wf_parse_statement(ts, i);
            if i < j <= ts.len() {
                wf_parse_statements(ts, j);
                match sp_parse_statements(ts, j) {
                    Parse::Hit(rest, j2) => {
                        assert forall|x: int|
                            0 <= x < (seq![s1] + rest).len() implies wf_stmt(
                            #[trigger] (seq![s1] + rest)[x],
                        ) by {
                            if x > 0 {
                                assert((seq![s1] + rest)[x] == rest[x - 1]);
                            }
                        }
                    },
                    _ => {},
                }
            } else {
                assert forall|x: int| 0 <= x < seq![s1].len() implies wf_stmt(
                    #[trigger] seq![s1][x],
                ) by {}
            }
        },
        _ => {},
    }
}

proof fn wf_parse_sig(ts: Seq<Token>, i: int)
    ensures
        sp_parse_func_sig(ts, i) matches Parse::Hit(sig, j) ==> wf_sig(sig),
{
    match sp_parse_func_type_pair(ts, i) {
        Parse::Hit(nt, j) => {
            wf_parse_arg_list(ts, j + 1);
        },
        _ => {},
    }
}

/// Whatever the parser accepts can be spelled back: its output is
/// well-formed.
pub proof fn lemma_parse_wf(ts: Seq<Token>)
    ensures
        match sp_parse(ts) {
            Ok(o) => match o {
                Some(nv) => wf_node(nv),
                None => true,
            },
            Err(_) => true,
        },
{
    if 0 < ts.len() && tok_abs(ts[0]) is FuncKeyword {
        match sp_parse_func_sig(ts, 1) {
            Parse::Hit(sig, j) => {
                wf_parse_sig(ts, 1);
                if j < ts.len() && tok_abs(ts[j]) is LBrace {
                    wf_parse_statements(ts, j + 1);
                }
            },
            _ => {},
        }
    }
}

/// Prints a syntax tree back to its token spelling; every token carries
/// the placeholder location row zero, column zero.
pub fn ast_tokens(node: &Node) -> (r: Vec<Token>)
    ensures
        abs_at(r@, 0, node_tokens(node@)),
        r@.len() == node_tokens(node@).len(),
{
    let loc = TokLoc { row: 0, col: 0 };
    let mut out: Vec<Token> = Vec::new();
    match node {
        Node::FuncDef(sig, body) => {
            let ghost sigv = sig@;
            let ghost bodyv = stmts_view(body@);
            push_tok(&mut out, Token::FuncKeyword(loc));
            push_tok(&mut out, Token::FuncName(clone_string(&sig.name), loc));
            push_tok(&mut out, Token::Colon(loc));
            push_type_token(&mut out, &sig.typename, loc);
            push_tok(&mut out, Token::LParen(loc));
            let ghost head = seq![TokenAbs::FuncKeyword, TokenAbs::FuncName(sigv.name), TokenAbs::Colon]
                + type_tokens(sigv.typ) + seq![TokenAbs::LParen];
            proof {
                assert(abs_seq(out@) =~= head);
            }
            let mut ai: usize = 0;
            while ai < sig.arglist.len()
                invariant
                    ai <= sig.arglist@.len(),
                    sigv == sig@,
                    abs_seq(out@) == head + args_tokens(sigv.args.take(ai as int)),
                decreases sig.arglist@.len() - ai,
            {
                if ai > 0 {
                    push_tok(&mut out, Token::Comma(loc));
                }
                let arg = &sig.arglist[ai];
                push_tok(&mut out, Token::VarName(clone_string(&arg.name), loc));
                push_tok(&mut out, Token::Colon(loc));
                push_type_token(&mut out, &arg.typename, loc);
                proof {
                    assert(sigv.args[ai as int] == arg@);
                    lemma_args_tokens_snoc(sigv.args, ai as int);
                    if ai == 0 {
                        assert(abs_seq(out@) =~= head + args_tokens(sigv.args.take(1)));
                    } else {
                        assert(abs_seq(out@) =~= head + args_tokens(sigv.args.take(ai as int + 1)));
                    }
                }
                ai += 1;
            }
            proof {
                assert(sigv.args.take(sigv.args.len() as int) =~= sigv.args);
            }
            push_tok(&mut out, Token::RParen(loc));
            push_tok(&mut out, Token::LBrace(loc));
            let ghost head2 = seq![TokenAbs::FuncKeyword] + sig_tokens(sigv) + seq![
                TokenAbs::LBrace,
            ];
            proof {
                assert(abs_seq(out@) =~= head2);
            }
            let mut si: usize = 0;
            while si < body.len()
                invariant
                    si <= body@.len(),
                    sigv == sig@,
                    bodyv == stmts_view(body@),
                    abs_seq(out@) == head2 + stmts_tokens(bodyv.take(si as int)),
                decreases body@.len() - si,
            {
                let ghost out_b = abs_seq(out@);
                let stmt = &body[si];
                match stmt {
                    Stmt::AddInst(d, l, rr) => {
                        push_tok(&mut out, Token::AddKeyword(loc));
                        push_tok(&mut out, Token::VarName(clone_string(&d.name), loc));
                        push_tok(&mut out, Token::Colon(loc));
                        push_type_token(&mut out, &d.typename, loc);
                        push_tok(&mut out, Token::VarName(clone_string(&l.name), loc));
                        push_tok(&mut out, Token::VarName(clone_string(&rr.name), loc));
                    },
                    Stmt::SubInst(d, l, rr) => {
                        push_tok(&mut out, Token::SubKeyword(loc));
                        push_tok(&mut out, Token::VarName(clone_string(&d.name), loc));
                        push_tok(&mut out, Token::Colon(loc));
                        push_type_token(&mut out, &d.typename, loc);
                        push_tok(&mut out, Token::VarName(clone_string(&l.name), loc));
                        push_tok(&mut out, Token::VarName(clone_string(&rr.name), loc));
                    },
                    Stmt::LetInst(d, v) => {
                        push_tok(&mut out, Token::LetKeyword(loc));
                        push_tok(&mut out, Token::VarName(clone_string(&d.name), loc));
                        push_tok(&mut out, Token::Colon(loc));
                        push_type_token(&mut out, &d.typename, loc);
                        match v {
                            LetValue::LetInteger(iv) => {
                                push_tok(&mut out, Token::Integer(*iv, loc));
                            },
                            LetValue::LetVariable(var) => {
                                push_tok(&mut out, Token::VarName(clone_string(&var.name), loc));
                            },
                        }
                    },
                    Stmt::RetInst(o) => {
                        push_tok(&mut out, Token::RetKeyword(loc));
                        match o {
                            Some(var) => {
                                push_tok(&mut out, Token::VarName(clone_string(&var.name), loc));
                            },
                            None => {
                                push_tok(&mut out, Token::VoidKeyword(loc));
                            },
                        }
                    },
                    Stmt::CallInst(d, f, ps) => {
                        push_tok(&mut out, Token::CallKeyword(loc));
                        push_tok(&mut out, Token::VarName(clone_string(&d.name), loc));
                        push_tok(&mut out, Token::Colon(loc));
                        push_type_token(&mut out, &d.typename, loc);
                        push_tok(&mut out, Token::FuncName(clone_string(&f.name), loc));
                        push_tok(&mut out, Token::LParen(loc));
                        let ghost psv = vars_view(ps@);
                        let ghost mid = abs_seq(out@);
                        let mut pi: usize = 0;
                        while pi < ps.len()
                            invariant
                                pi <= ps@.len(),
                                psv == vars_view(ps@),
                                abs_seq(out@) == mid + params_tokens(psv.take(pi as int)),
                            decreases ps@.len() - pi,
                        {
                            if pi > 0 {
                                push_tok(&mut out, Token::Comma(loc));
                            }
                            push_tok(&mut out, Token::VarName(clone_string(&ps[pi].name), loc));
                            proof {
                                assert(psv[pi as int] == ps@[pi as int]@);
                                lemma_params_tokens_snoc(psv, pi as int);
                                if pi == 0 {
                                    assert(abs_seq(out@) =~= mid + params_tokens(psv.take(1)));
                                } else {
                                    assert(abs_seq(out@) =~= mid + params_tokens(
                                        psv.take(pi as int + 1),
                                    ));
                                }
                            }
                            pi += 1;
                        }
                        proof {
                            assert(psv.take(psv.len() as int) =~= psv);
                        }
                        push_tok(&mut out, Token::RParen(loc));
                    },
                }
                proof {
                    assert(bodyv[si as int] == stmt@);
                    assert(abs_seq(out@) =~= out_b + stmt_tokens(bodyv[si as int]));
                    lemma_stmts_tokens_snoc(bodyv, si as int);
                    assert(abs_seq(out@) =~= head2 + stmts_tokens(bodyv.take(si as int + 1)));
                }
                si += 1;
            }
            proof {
                assert(bodyv.take(bodyv.len() as int) =~= bodyv);
            }
            push_tok(&mut out, Token::RBrace(loc));
            proof {
                assert(abs_seq(out@) =~= node_tokens(node@));
                lemma_abs_seq_at(out@, node_tokens(node@));
            }
        },
    }
    out
}

/// The shadows of a token sequence, in order.
pub open spec fn abs_seq(ts: Seq<Token>) -> Seq<TokenAbs> {
    ts.map_values(|t: Token| tok_abs(t))
}

fn push_tok(out: &mut Vec<Token>, t: Token)
    ensures
        final(out)@.len() == old(out)@.len() + 1,
        abs_seq(final(out)@) == abs_seq(old(out)@).push(tok_abs(t)),
{
    let ghost a = tok_abs(t);
    out.push(t);
    proof {
        assert(abs_seq(out@) =~= abs_seq(out@.drop_last()).push(a));
    }
}

proof fn lemma_abs_seq_at(ts: Seq<Token>, pat: Seq<TokenAbs>)
    requires
        abs_seq(ts) == pat,
    ensures
        abs_at(ts, 0, pat),
{
    assert forall|x: int| 0 <= x < pat.len() implies tok_abs(#[trigger] ts[x]) == pat[x - 0] by {
        assert(abs_seq(ts)[x] == tok_abs(ts[x]));
    }
}

fn push_type_token(out: &mut Vec<Token>, t: &Type, loc: TokLoc)
    ensures
        final(out)@.len() == old(out)@.len() + 1,
        abs_seq(final(out)@) == abs_seq(old(out)@) + type_tokens(t@),
{
    match t {
        Type::I8 => out.push(Token::I8Keyword(loc)),
        Type::I16 => out.push(Token::I16Keyword(loc)),
        Type::I32 => out.push(Token::I32Keyword(loc)),
        Type::I64 => out.push(Token::I64Keyword(loc)),
        Type::F32 => out.push(Token::F32Keyword(loc)),
        Type::F64 => out.push(Token::F64Keyword(loc)),
        Type::Void => out.push(Token::VoidKeyword(loc)),
        Type::Ptr(_) => out.push(Token::VoidKeyword(loc)),
        Type::UserType(_) => out.push(Token::VoidKeyword(loc)),
    }
    proof {
        assert(abs_seq(final(out)@) =~= abs_seq(old(out)@) + type_tokens(t@));
    }
}

proof fn lemma_args_tokens_snoc(args: Seq<VtpV>, t: int)
    requires
        0 <= t < args.len(),
    ensures
        args_tokens(args.take(t + 1)) == args_tokens(args.take(t)) + (if t == 0 {
            Seq::<TokenAbs>::empty()
        } else {
            seq![TokenAbs::Comma]
        }) + vtp_tokens(args[t]),
    decreases t,
{
    if t == 0 {
        assert(args.take(1) =~= seq![args[0]]);
        assert(args.take(0) =~= Seq::<VtpV>::empty());
        assert(args_tokens(args.take(1)) == vtp_tokens(args[0]));
        assert(args_tokens(args.take(0)) + Seq::<TokenAbs>::empty() + vtp_tokens(args[0])
            =~= vtp_tokens(args[0]));
    } else {
        let rest = args.drop_first();
        lemma_args_tokens_snoc(rest, t - 1);
        assert(args.take(t + 1).drop_first() =~= rest.take(t));
        assert(args.take(t).drop_first() =~= rest.take(t - 1));
        assert(args.take(t + 1)[0] == args[0]);
        assert(args.take(t)[0] == args[0]);
        assert(rest[t - 1] == args[t]);
        assert(args.take(t + 1).len() >= 2);
        assert(args_tokens(args.take(t + 1)) == vtp_tokens(args[0]) + seq![TokenAbs::Comma]
            + args_tokens(rest.take(t)));
        if t == 1 {
            assert(args.take(1) =~= seq![args[0]]);
            assert(args_tokens(args.take(1)) == vtp_tokens(args[0]));
            assert(rest.take(1) =~= seq![rest[0]]);
            assert(args_tokens(rest.take(1)) == vtp_tokens(rest[0]));
            assert(rest.take(0) =~= Seq::<VtpV>::empty());
            assert(vtp_tokens(args[0]) + seq![TokenAbs::Comma] + (args_tokens(rest.take(0))
                + Seq::<TokenAbs>::empty() + vtp_tokens(rest[0])) =~= (vtp_tokens(args[0])
                + seq![TokenAbs::Comma]) + vtp_tokens(args[1]));
            assert(args_tokens(args.take(2)) =~= args_tokens(args.take(1)) + seq![TokenAbs::Comma]
                + vtp_tokens(args[1]));
        } else {
            assert(args_tokens(args.take(t)) == vtp_tokens(args[0]) + seq![TokenAbs::Comma]
                + args_tokens(rest.take(t - 1)));
            assert(vtp_tokens(args[0]) + seq![TokenAbs::Comma] + (args_tokens(rest.take(t - 1))
                + seq![TokenAbs::Comma] + vtp_tokens(rest[t - 1])) =~= (vtp_tokens(args[0])
                + seq![TokenAbs::Comma] + args_tokens(rest.take(t - 1))) + seq![TokenAbs::Comma]
                + vtp_tokens(args[t]));
        }
    }
}

proof fn lemma_params_tokens_snoc(ps: Seq<Seq<char>>, t: int)
    requires
        0 <= t < ps.len(),
    ensures
        params_tokens(ps.take(t + 1)) == params_tokens(ps.take(t)) + (if t == 0 {
            Seq::<TokenAbs>::empty()
        } else {
            seq![TokenAbs::Comma]
        }) + seq![TokenAbs::VarName(ps[t])],
    decreases t,
{
    if t == 0 {
        assert(ps.take(1) =~= seq![ps[0]]);
        assert(ps.take(0) =~= Seq::<Seq<char>>::empty());
        assert(params_tokens(ps.take(1)) == seq![TokenAbs::VarName(ps[0])]);
        assert(params_tokens(ps.take(0)) + Seq::<TokenAbs>::empty() + seq![
            TokenAbs::VarName(ps[0]),
        ] =~= seq![TokenAbs::VarName(ps[0])]);
    } else {
        let rest = ps.drop_first();
        lemma_params_tokens_snoc(rest, t - 1);
        assert(ps.take(t + 1).drop_first() =~= rest.take(t));
        assert(ps.take(t).drop_first() =~= rest.take(t - 1));
        assert(ps.take(t + 1)[0] == ps[0]);
        assert(ps.take(t)[0] == ps[0]);
        assert(rest[t - 1] == ps[t]);
        assert(ps.take(t + 1).len() >= 2);
        assert(params_tokens(ps.take(t + 1)) == seq![
            TokenAbs::VarName(ps[0]),
            TokenAbs::Comma,
        ] + params_tokens(rest.take(t)));
        if t == 1 {
            assert(rest.take(1) =~= seq![rest[0]]);
            assert(params_tokens(rest.take(1)) == seq![TokenAbs::VarName(rest[0])]);
            assert(rest.take(0) =~= Seq::<Seq<char>>::empty());
            assert(ps.take(1) =~= seq![ps[0]]);
            assert(params_tokens(ps.take(1)) == seq![TokenAbs::VarName(ps[0])]);
            assert(seq![TokenAbs::VarName(ps[0]), TokenAbs::Comma] + (params_tokens(rest.take(0))
                + Seq::<TokenAbs>::empty() + seq![TokenAbs::VarName(rest[0])]) =~= (seq![
                TokenAbs::VarName(ps[0]),
            ] + seq![TokenAbs::Comma]) + seq![TokenAbs::VarName(ps[1])]);
            assert(params_tokens(ps.take(2)) =~= params_tokens(ps.take(1)) + seq![TokenAbs::Comma]
                + seq![TokenAbs::VarName(ps[1])]);
        } else {
            assert(params_tokens(ps.take(t)) == seq![TokenAbs::VarName(ps[0]), TokenAbs::Comma]
                + params_tokens(rest.take(t - 1)));
            assert(seq![TokenAbs::VarName(ps[0]), TokenAbs::Comma] + (params_tokens(
                rest.take(t - 1),
            ) + seq![TokenAbs::Comma] + seq![TokenAbs::VarName(rest[t - 1])]) =~= (seq![
                TokenAbs::VarName(ps[0]),
                TokenAbs::Comma,
            ] + params_tokens(rest.take(t - 1))) + seq![TokenAbs::Comma] + seq![
                TokenAbs::VarName(ps[t]),
            ]);
        }
    }
}

proof fn lemma_stmts_tokens_snoc(body: Seq<StmtV>, t: int)
    requires
        0 <= t < body.len(),
    ensures
        stmts_tokens(body.take(t + 1)) == stmts_tokens(body.take(t)) + stmt_tokens(body[t]),
    decreases t,
{
    if t == 0 {
        assert(body.take(0) =~= Seq::<StmtV>::empty());
        assert(body.take(1).drop_first() =~= Seq::<StmtV>::empty());
        assert(body.take(1)[0] == body[0]);
        assert(stmts_tokens(Seq::<StmtV>::empty()) == Seq::<TokenAbs>::empty());
        assert(stmts_tokens(body.take(1)) == stmt_tokens(body[0]) + Seq::<TokenAbs>::empty());
        assert(stmt_tokens(body[0]) + Seq::<TokenAbs>::empty() =~= stmt_tokens(body[0]));
        assert(Seq::<TokenAbs>::empty() + stmt_tokens(body[0]) =~= stmt_tokens(body[0]));
    } else {
        let rest = body.drop_first();
        lemma_stmts_tokens_snoc(rest, t - 1);
        assert(body.take(t + 1).drop_first() =~= rest.take(t));
        assert(body.take(t).drop_first() =~= rest.take(t - 1));
        assert(body.take(t + 1)[0] == body[0]);
        assert(body.take(t)[0] == body[0]);
        assert(rest[t - 1] == body[t]);
        assert(stmts_tokens(body.take(t + 1)) == stmt_tokens(body[0]) + stmts_tokens(rest.take(t)));
        assert(stmts_tokens(body.take(t)) == stmt_tokens(body[0]) + stmts_tokens(rest.take(t - 1)));
        assert(stmt_tokens(body[0]) + (stmts_tokens(rest.take(t - 1)) + stmt_tokens(rest[t - 1]))
            =~= (stmt_tokens(body[0]) + stmts_tokens(rest.take(t - 1))) + stmt_tokens(body[t]));
    }
}

} // verus!
