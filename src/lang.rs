use vstd::prelude::*;

use crate::model::{copy_text, mutations_view, Mutation, MutationModel, Op, OpModel, Value, ValueModel};
use crate::text::{chars_of, string_of};

verus! {

/// A token of a configuration script.
#[derive(Debug, Clone, PartialEq, Eq)]
pub enum Token {
    Open,
    Close,
    Atom(String),
    Str(String),
}

pub enum TokenModel {
    Open,
    Close,
    Atom(Seq<char>),
    Str(Seq<char>),
}

impl View for Token {
    type V = TokenModel;

    open spec fn view(&self) -> TokenModel {
        match self {
            Token::Open => TokenModel::Open,
            Token::Close => TokenModel::Close,
            Token::Atom(a) => TokenModel::Atom(a@),
            Token::Str(s) => TokenModel::Str(s@),
        }
    }
}

pub open spec fn tokens_model(v: Seq<Token>) -> Seq<TokenModel> {
    v.map_values(|t: Token| t@)
}

pub open spec fn is_space(c: char) -> bool {
    c == ' ' || c == '\t' || c == '\n' || c == '\r'
}

/// Where the lexer stands: tokens read; mode 0 between tokens, 1 in an atom,
/// 2 in a string, 3 after a `\` in a string, 4 in a comment; the text of the
/// token being read; whether the text was found malformed.
pub struct Lexer {
    pub toks: Seq<TokenModel>,
    pub mode: int,
    pub buf: Seq<char>,
    pub bad: bool,
}

pub open spec fn between(toks: Seq<TokenModel>) -> Lexer {
    Lexer { toks, mode: 0, buf: seq![], bad: false }
}

pub open spec fn lex_feed(s: Lexer, c: char) -> Lexer {
    if s.bad {
        s
    } else if s.mode == 0 {
        if c == '(' {
            between(s.toks.push(TokenModel::Open))
        } else if c == ')' {
            between(s.toks.push(TokenModel::Close))
        } else if c == '"' {
            Lexer { toks: s.toks, mode: 2, buf: seq![], bad: false }
        } else if c == ';' {
            Lexer { toks: s.toks, mode: 4, buf: seq![], bad: false }
        } else if is_space(c) {
            s
        } else {
            Lexer { toks: s.toks, mode: 1, buf: seq![c], bad: false }
        }
    } else if s.mode == 1 {
        let done = s.toks.push(TokenModel::Atom(s.buf));
        if c == '(' {
            between(done.push(TokenModel::Open))
        } else if c == ')' {
            between(done.push(TokenModel::Close))
        } else if is_space(c) {
            between(done)
        } else if c == ';' {
            Lexer { toks: done, mode: 4, buf: seq![], bad: false }
        } else if c == '"' {
            Lexer { bad: true, ..s }
        } else {
            Lexer { buf: s.buf.push(c), ..s }
        }
    } else if s.mode == 2 {
        if c == '"' {
            between(s.toks.push(TokenModel::Str(s.buf)))
        } else if c == '\\' {
            Lexer { mode: 3, ..s }
        } else {
            Lexer { buf: s.buf.push(c), ..s }
        }
    } else if s.mode == 3 {
        if c == '"' || c == '\\' {
            Lexer { mode: 2, buf: s.buf.push(c), ..s }
        } else if c == 'n' {
            Lexer { mode: 2, buf: s.buf.push('\n'), ..s }
        } else {
            Lexer { bad: true, ..s }
        }
    } else {
        if c == '\n' {
            between(s.toks)
        } else {
            s
        }
    }
}

pub open spec fn lex_from(s: Lexer, cs: Seq<char>) -> Lexer
    decreases cs.len(),
{
    if cs.len() == 0 {
        s
    } else {
        lex_feed(lex_from(s, cs.drop_last()), cs.last())
    }
}

/// The tokens of a script, or `None` where a string is unterminated or an
/// atom runs into a string or a string holds an unknown escape.
pub open spec fn lex(cs: Seq<char>) -> Option<Seq<TokenModel>> {
    let s = lex_from(between(seq![]), cs);
    if s.bad || s.mode == 2 || s.mode == 3 {
        None
    } else if s.mode == 1 {
        Some(s.toks.push(TokenModel::Atom(s.buf)))
    } else {
        Some(s.toks)
    }
}

/// The nesting depth after the tokens, or -1 once a `)` has no `(`.
pub open spec fn depth(t: Seq<TokenModel>) -> int
    decreases t.len(),
{
    if t.len() == 0 {
        0
    } else {
        let d = depth(t.drop_last());
        if d < 0 {
            -1
        } else {
            match t.last() {
                TokenModel::Open => d + 1,
                TokenModel::Close => d - 1,
                _ => d,
            }
        }
    }
}

#[derive(Debug, Clone, PartialEq, Eq)]
pub enum ScriptError {
    /// Malformed syntax: an unterminated string or list, a stray `)`, an
    /// unknown escape.
    Parse,
    UnknownOperator,
    Arity,
    /// A value of the wrong kind: a list where text is wanted, or a form
    /// that is not a call.
    WrongKind,
    Unbound,
}

/// The value bound to `name` most recently.
pub open spec fn lookup(binds: Seq<(Seq<char>, Seq<char>)>, name: Seq<char>) -> Option<Seq<char>>
    decreases binds.len(),
{
    if binds.len() == 0 {
        None
    } else if binds.last().0 == name {
        Some(binds.last().1)
    } else {
        lookup(binds.drop_last(), name)
    }
}

/// The arguments of a call from position `q` to its `)`, each a string or
/// a bound symbol, and the position after the `)`.
pub open spec fn args_at(t: Seq<TokenModel>, q: int, binds: Seq<(Seq<char>, Seq<char>)>) -> Result<
    (Seq<Seq<char>>, int),
    ScriptError,
>
    decreases t.len() - q,
{
    if q < 0 || q >= t.len() {
        Err(ScriptError::Parse)
    } else {
        match t[q] {
            TokenModel::Close => Ok((seq![], q + 1)),
            TokenModel::Open => Err(ScriptError::WrongKind),
            TokenModel::Str(x) => match args_at(t, q + 1, binds) {
                Ok((r, e)) => Ok((seq![x] + r, e)),
                Err(err) => Err(err),
            },
            TokenModel::Atom(a) => match lookup(binds, a) {
                Some(x) => match args_at(t, q + 1, binds) {
                    Ok((r, e)) => Ok((seq![x] + r, e)),
                    Err(err) => Err(err),
                },
                None => Err(ScriptError::Unbound),
            },
        }
    }
}

/// The mutation that a call of `op` makes, or the error it gives.
pub open spec fn call(op: Seq<char>, args: Seq<Seq<char>>) -> Result<MutationModel, ScriptError> {
    if op == "env/set"@ {
        if args.len() == 2 {
            Ok(MutationModel { name: args[0], op: OpModel::Assign(ValueModel::Scalar(args[1])) })
        } else {
            Err(ScriptError::Arity)
        }
    } else if op == "env/unset"@ {
        if args.len() == 1 {
            Ok(MutationModel { name: args[0], op: OpModel::Unset })
        } else {
            Err(ScriptError::Arity)
        }
    } else if op == "env/prepend-to-pathlist"@ {
        if args.len() == 2 {
            Ok(MutationModel { name: args[0], op: OpModel::PrependToList(args[1]) })
        } else {
            Err(ScriptError::Arity)
        }
    } else if op == "env/append-to-pathlist"@ {
        if args.len() == 2 {
            Ok(MutationModel { name: args[0], op: OpModel::AppendToList(args[1]) })
        } else {
            Err(ScriptError::Arity)
        }
    } else if op == "env/remove-from-pathlist"@ {
        if args.len() == 2 {
            Ok(MutationModel { name: args[0], op: OpModel::RemoveFromList(args[1]) })
        } else {
            Err(ScriptError::Arity)
        }
    } else {
        Err(ScriptError::UnknownOperator)
    }
}

/// The mutations of the forms from position `p` on, in order, under the
/// bindings made so far. `(define name value)` binds a name for the forms
/// after it.
pub open spec fn eval_at(t: Seq<TokenModel>, p: int, binds: Seq<(Seq<char>, Seq<char>)>) -> Result<
    Seq<MutationModel>,
    ScriptError,
>
    decreases t.len() - p,
{
    if p < 0 || p >= t.len() {
        Ok(seq![])
    } else if t[p] != TokenModel::Open || p + 1 >= t.len() {
        Err(ScriptError::WrongKind)
    } else {
        match t[p + 1] {
            TokenModel::Atom(op) => if op == "define"@ {
                if p + 2 < t.len() {
                    match t[p + 2] {
                        TokenModel::Atom(name) => match args_at(t, p + 3, binds) {
                            Ok((args, e)) => if args.len() != 1 {
                                Err(ScriptError::Arity)
                            } else if p < e <= t.len() {
                                eval_at(t, e, binds.push((name, args[0])))
                            } else {
                                Err(ScriptError::Parse)
                            },
                            Err(err) => Err(err),
                        },
                        _ => Err(ScriptError::WrongKind),
                    }
                } else {
                    Err(ScriptError::Parse)
                }
            } else {
                match args_at(t, p + 2, binds) {
                    Ok((args, e)) => match call(op, args) {
                        Ok(m) => if p < e <= t.len() {
                            match eval_at(t, e, binds) {
                                Ok(rest) => Ok(seq![m] + rest),
                                Err(err) => Err(err),
                            }
                        } else {
                            Err(ScriptError::Parse)
                        },
                        Err(err) => Err(err),
                    },
                    Err(err) => Err(err),
                }
            },
            _ => Err(ScriptError::WrongKind),
        }
    }
}

/// What a script evaluates to: its mutations in order of evaluation, or the
/// first error. Syntax is checked in full before anything is evaluated.
pub open spec fn evaluate_spec(cs: Seq<char>) -> Result<Seq<MutationModel>, ScriptError> {
    match lex(cs) {
        None => Err(ScriptError::Parse),
        Some(t) => if depth(t) != 0 {
            Err(ScriptError::Parse)
        } else {
            eval_at(t, 0, seq![])
        },
    }
}

proof fn lemma_lex_bad(s: Lexer, cs: Seq<char>)
    requires
        s.bad,
    ensures
        lex_from(s, cs).bad,
    decreases cs.len(),
{
    if cs.len() > 0 {
        lemma_lex_bad(s, cs.drop_last());
    }
}

proof fn lemma_lex_concat(s: Lexer, a: Seq<char>, b: Seq<char>)
    ensures
        lex_from(s, a + b) == lex_from(lex_from(s, a), b),
    decreases b.len(),
{
    if b.len() == 0 {
        assert(a + b =~= a);
    } else {
        assert((a + b).drop_last() =~= a + b.drop_last());
        assert((a + b).last() == b.last());
        lemma_lex_concat(s, a, b.drop_last());
    }
}

fn push_token(toks: &mut Vec<Token>, t: Token)
    ensures
        tokens_model(final(toks)@) == tokens_model(old(toks)@).push(t@),
{
    toks.push(t);
    assert(tokens_model(toks@) =~= tokens_model(old(toks)@).push(t@));
}

/// The tokens of a script.
pub fn lex_exec(src: &str) -> (r: Option<Vec<Token>>)
    ensures
        match r {
            Some(v) => lex(src@) == Some(tokens_model(v@)),
            None => (lex(src@) is None),
        },
{
    let cs = chars_of(src);
    let mut toks: Vec<Token> = Vec::new();
    let mut mode: u8 = 0;
    let mut buf: Vec<char> = Vec::new();
    let mut i: usize = 0;
    assert(cs@.take(0) =~= Seq::<char>::empty());
    assert(tokens_model(toks@) =~= Seq::<TokenModel>::empty());
    assert(buf@ =~= Seq::<char>::empty());
    while i < cs.len()
        invariant
            i <= cs@.len(),
            cs@ == src@,
            mode <= 4,
            (mode == 0 || mode == 4) ==> buf@ == Seq::<char>::empty(),
            lex_from(between(seq![]), cs@.take(i as int)) == (Lexer {
                toks: tokens_model(toks@),
                mode: mode as int,
                buf: buf@,
                bad: false,
            }),
        decreases cs@.len() - i,
    {
        let c = cs[i];
        assert(cs@.take(i + 1).drop_last() =~= cs@.take(i as int));
        let ghost bad_next = lex_feed(
            Lexer { toks: tokens_model(toks@), mode: mode as int, buf: buf@, bad: false },
            c,
        ).bad;
        if mode == 0 {
            if c == '(' {
                push_token(&mut toks, Token::Open);
            } else if c == ')' {
                push_token(&mut toks, Token::Close);
            } else if c == '"' {
                mode = 2;
                buf = Vec::new();
            } else if c == ';' {
                mode = 4;
                buf = Vec::new();
            } else if c == ' ' || c == '\t' || c == '\n' || c == '\r' {
            } else {
                mode = 1;
                buf = Vec::new();
                buf.push(c);
            }
        } else if mode == 1 {
            if c == '"' {
                proof {
                    let s1 = lex_from(between(seq![]), cs@.take(i + 1));
                    lemma_lex_bad(s1, cs@.skip(i + 1));
                    lemma_lex_concat(between(seq![]), cs@.take(i + 1), cs@.skip(i + 1));
                    assert(cs@.take(i + 1) + cs@.skip(i + 1) =~= cs@);
                }
                return None;
            } else if c == '(' || c == ')' || c == ' ' || c == '\t' || c == '\n' || c == '\r' || c
                == ';' {
                push_token(&mut toks, Token::Atom(string_of(&buf)));
                if c == '(' {
                    push_token(&mut toks, Token::Open);
                    mode = 0;
                } else if c == ')' {
                    push_token(&mut toks, Token::Close);
                    mode = 0;
                } else if c == ';' {
                    mode = 4;
                } else {
                    mode = 0;
                }
                buf = Vec::new();
            } else {
                buf.push(c);
            }
        } else if mode == 2 {
            if c == '"' {
                push_token(&mut toks, Token::Str(string_of(&buf)));
                mode = 0;
                buf = Vec::new();
            } else if c == '\\' {
                mode = 3;
            } else {
                buf.push(c);
            }
        } else if mode == 3 {
            if c == '"' || c == '\\' {
                buf.push(c);
                mode = 2;
            } else if c == 'n' {
                buf.push('\n');
                mode = 2;
            } else {
                proof {
                    let s1 = lex_from(between(seq![]), cs@.take(i + 1));
                    lemma_lex_bad(s1, cs@.skip(i + 1));
                    lemma_lex_concat(between(seq![]), cs@.take(i + 1), cs@.skip(i + 1));
                    assert(cs@.take(i + 1) + cs@.skip(i + 1) =~= cs@);
                }
                return None;
            }
        } else {
            if c == '\n' {
                mode = 0;
                buf = Vec::new();
            }
        }
        assert(buf@ =~= lex_from(between(seq![]), cs@.take(i + 1)).buf);
        i += 1;
    }
    assert(cs@.take(cs@.len() as int) =~= cs@);
    if mode == 2 || mode == 3 {
        None
    } else if mode == 1 {
        push_token(&mut toks, Token::Atom(string_of(&buf)));
        Some(toks)
    } else {
        Some(toks)
    }
}

/// Whether every `(` has its `)` and no `)` comes first.
pub fn balanced(t: &Vec<Token>) -> (r: bool)
    ensures
        r == (depth(tokens_model(t@)) == 0),
{
    let ghost tm = tokens_model(t@);
    let mut d: usize = 0;
    let mut i: usize = 0;
    while i < t.len()
        invariant
            i <= t@.len(),
            tm == tokens_model(t@),
            d <= i,
            depth(tm.take(i as int)) == d as int,
        decreases t@.len() - i,
    {
        assert(tm.take(i + 1).drop_last() =~= tm.take(i as int));
        assert(tm.take(i + 1).last() == t@[i as int]@);
        match &t[i] {
            Token::Open => {
                d = d + 1;
            },
            Token::Close => {
                if d == 0 {
                    proof {
                        lemma_depth_stuck(tm, i + 1);
                    }
                    return false;
                }
                d = d - 1;
            },
            _ => {},
        }
        i += 1;
    }
    assert(tm.take(tm.len() as int) =~= tm);
    d == 0
}

proof fn lemma_depth_stuck(t: Seq<TokenModel>, k: int)
    requires
        0 <= k <= t.len(),
        depth(t.take(k)) < 0,
    ensures
        depth(t) < 0,
    decreases t.len() - k,
{
    if k < t.len() {
        assert(t.take(k + 1).drop_last() =~= t.take(k));
        lemma_depth_stuck(t, k + 1);
    } else {
        assert(t.take(k) =~= t);
    }
}

pub open spec fn binds_view(v: Seq<(String, String)>) -> Seq<(Seq<char>, Seq<char>)> {
    v.map_values(|b: (String, String)| (b.0@, b.1@))
}

fn lookup_exec(binds: &Vec<(String, String)>, name: &String) -> (r: Option<String>)
    ensures
        match r {
            Some(x) => lookup(binds_view(binds@), name@) == Some(x@),
            None => (lookup(binds_view(binds@), name@) is None),
        },
{
    let ghost bv = binds_view(binds@);
    let mut i: usize = binds.len();
    assert(bv.take(bv.len() as int) =~= bv);
    while i > 0
        invariant
            i <= binds@.len(),
            bv == binds_view(binds@),
            lookup(bv, name@) == lookup(bv.take(i as int), name@),
        decreases i,
    {
        let ghost pre = bv.take(i as int);
        assert(pre.drop_last() =~= bv.take(i - 1));
        assert(pre.last() == bv[i - 1]);
        if binds[i - 1].0.eq(name) {
            return Some(copy_text(&binds[i - 1].1));
        }
        i -= 1;
    }
    assert(bv.take(0) =~= Seq::<(Seq<char>, Seq<char>)>::empty());
    None
}

fn args_exec(t: &Vec<Token>, q0: usize, binds: &Vec<(String, String)>) -> (r: Result<
    (Vec<String>, usize),
    ScriptError,
>)
    ensures
        match r {
            Ok((a, e)) => args_at(tokens_model(t@), q0 as int, binds_view(binds@)) == Ok::<
                (Seq<Seq<char>>, int),
                ScriptError,
            >((crate::model::texts(a@), e as int)),
            Err(err) => args_at(tokens_model(t@), q0 as int, binds_view(binds@)) == Err::<
                (Seq<Seq<char>>, int),
                ScriptError,
            >(err),
        },
{
    let ghost tm = tokens_model(t@);
    let ghost bv = binds_view(binds@);
    let mut acc: Vec<String> = Vec::new();
    let mut q = q0;
    assert(crate::model::texts(acc@) + Seq::<Seq<char>>::empty() =~= Seq::<Seq<char>>::empty());
    loop
        invariant
            tm == tokens_model(t@),
            bv == binds_view(binds@),
            q0 <= q,
            args_at(tm, q0 as int, bv) == (match args_at(tm, q as int, bv) {
                Ok((r, e)) => Ok((crate::model::texts(acc@) + r, e)),
                Err(err) => Err(err),
            }),
        decreases t@.len() - q,
    {
        if q >= t.len() {
            return Err(ScriptError::Parse);
        }
        let x = match &t[q] {
            Token::Close => {
                assert(crate::model::texts(acc@) + Seq::<Seq<char>>::empty() =~= crate::model::texts(
                    acc@,
                ));
                return Ok((acc, q + 1));
            },
            Token::Open => {
                return Err(ScriptError::WrongKind);
            },
            Token::Str(x) => copy_text(x),
            Token::Atom(a) => match lookup_exec(binds, a) {
                Some(x) => x,
                None => {
                    return Err(ScriptError::Unbound);
                },
            },
        };
        let ghost before = acc@;
        acc.push(x);
        proof {
            assert(crate::model::texts(acc@) =~= crate::model::texts(before).push(x@));
            match args_at(tm, q + 1, bv) {
                Ok((r, e)) => {
                    assert(crate::model::texts(before) + (seq![x@] + r) =~= crate::model::texts(
                        acc@,
                    ) + r);
                },
                Err(_) => {},
            }
        }
        q = q + 1;
    }
}

/// Whether the text is exactly `w`.
fn is_word(s: &String, w: &str) -> (r: bool)
    ensures
        r == (s@ == w@),
{
    let a = chars_of(s.as_str());
    let b = chars_of(w);
    if a.len() != b.len() {
        return false;
    }
    let mut i: usize = 0;
    while i < a.len()
        invariant
            i <= a@.len(),
            a@.len() == b@.len(),
            a@ == s@,
            b@ == w@,
            forall|j: int| 0 <= j < i ==> a@[j] == b@[j],
        decreases a@.len() - i,
    {
        if a[i] != b[i] {
            assert(a@[i as int] != b@[i as int]);
            return false;
        }
        i += 1;
    }
    assert(a@ =~= b@);
    true
}

fn call_exec(op: &String, args: &Vec<String>) -> (r: Result<Mutation, ScriptError>)
    ensures
        match r {
            Ok(m) => call(op@, crate::model::texts(args@)) == Ok::<MutationModel, ScriptError>(m@),
            Err(err) => call(op@, crate::model::texts(args@)) == Err::<MutationModel, ScriptError>(
                err,
            ),
        },
{
    let n = args.len();
    if is_word(op, "env/set") {
        if n != 2 {
            return Err(ScriptError::Arity);
        }
        Ok(Mutation { name: copy_text(&args[0]), op: Op::Assign(Value::Scalar(copy_text(&args[1]))) })
    } else if is_word(op, "env/unset") {
        if n != 1 {
            return Err(ScriptError::Arity);
        }
        Ok(Mutation { name: copy_text(&args[0]), op: Op::Unset })
    } else if is_word(op, "env/prepend-to-pathlist") {
        if n != 2 {
            return Err(ScriptError::Arity);
        }
        Ok(Mutation { name: copy_text(&args[0]), op: Op::PrependToList(copy_text(&args[1])) })
    } else if is_word(op, "env/append-to-pathlist") {
        if n != 2 {
            return Err(ScriptError::Arity);
        }
        Ok(Mutation { name: copy_text(&args[0]), op: Op::AppendToList(copy_text(&args[1])) })
    } else if is_word(op, "env/remove-from-pathlist") {
        if n != 2 {
            return Err(ScriptError::Arity);
        }
        Ok(Mutation { name: copy_text(&args[0]), op: Op::RemoveFromList(copy_text(&args[1])) })
    } else {
        Err(ScriptError::UnknownOperator)
    }
}

fn eval_tokens(t: &Vec<Token>) -> (r: Result<Vec<Mutation>, ScriptError>)
    ensures
        match r {
            Ok(ms) => eval_at(tokens_model(t@), 0, seq![]) == Ok::<Seq<MutationModel>, ScriptError>(
                mutations_view(ms@),
            ),
            Err(err) => eval_at(tokens_model(t@), 0, seq![]) == Err::<
                Seq<MutationModel>,
                ScriptError,
            >(err),
        },
{
    let ghost tm = tokens_model(t@);
    let mut binds: Vec<(String, String)> = Vec::new();
    let mut acc: Vec<Mutation> = Vec::new();
    let mut p: usize = 0;
    assert(binds_view(binds@) =~= Seq::<(Seq<char>, Seq<char>)>::empty());
    assert(mutations_view(acc@) + Seq::<MutationModel>::empty() =~= Seq::<MutationModel>::empty());
    loop
        invariant
            tm == tokens_model(t@),
            eval_at(tm, 0, seq![]) == (match eval_at(tm, p as int, binds_view(binds@)) {
                Ok(r) => Ok(mutations_view(acc@) + r),
                Err(err) => Err(err),
            }),
        decreases t@.len() - p,
    {
        let ghost bv = binds_view(binds@);
        if p >= t.len() {
            assert(mutations_view(acc@) + Seq::<MutationModel>::empty() =~= mutations_view(acc@));
            return Ok(acc);
        }
        let is_open = match &t[p] {
            Token::Open => true,
            _ => false,
        };
        if !is_open || p + 1 >= t.len() {
            return Err(ScriptError::WrongKind);
        }
        let op = match &t[p + 1] {
            Token::Atom(op) => op,
            _ => {
                return Err(ScriptError::WrongKind);
            },
        };
        if is_word(op, "define") {
            if p + 2 >= t.len() {
                return Err(ScriptError::Parse);
            }
            let name = match &t[p + 2] {
                Token::Atom(name) => name,
                _ => {
                    return Err(ScriptError::WrongKind);
                },
            };
            let (args, e) = match args_exec(t, p + 3, &binds) {
                Ok(x) => x,
                Err(err) => {
                    return Err(err);
                },
            };
            if args.len() != 1 {
                return Err(ScriptError::Arity);
            }
            if !(p < e && e <= t.len()) {
                return Err(ScriptError::Parse);
            }
            let ghost b0 = binds@;
            binds.push((copy_text(name), copy_text(&args[0])));
            assert(binds_view(binds@) =~= bv.push((name@, args@[0]@)));
            p = e;
        } else {
            let (args, e) = match args_exec(t, p + 2, &binds) {
                Ok(x) => x,
                Err(err) => {
                    return Err(err);
                },
            };
            let m = match call_exec(op, &args) {
                Ok(m) => m,
                Err(err) => {
                    return Err(err);
                },
            };
            if !(p < e && e <= t.len()) {
                return Err(ScriptError::Parse);
            }
            let ghost before = acc@;
            let ghost mm = m@;
            acc.push(m);
            proof {
                assert(mutations_view(acc@) =~= mutations_view(before).push(mm));
                match eval_at(tm, e as int, bv) {
                    Ok(r) => {
                        assert(mutations_view(before) + (seq![mm] + r) =~= mutations_view(acc@)
                            + r);
                    },
                    Err(_) => {},
                }
            }
            p = e;
        }
    }
}

/// Evaluates a configuration script into its mutations, in order of
/// evaluation. Malformed syntax fails before anything is evaluated.
pub fn evaluate(src: &str) -> (r: Result<Vec<Mutation>, ScriptError>)
    ensures
        match r {
            Ok(ms) => evaluate_spec(src@) == Ok::<Seq<MutationModel>, ScriptError>(
                mutations_view(ms@),
            ),
            Err(err) => evaluate_spec(src@) == Err::<Seq<MutationModel>, ScriptError>(err),
        },
{
    match lex_exec(src) {
        None => Err(ScriptError::Parse),
        Some(t) => if !balanced(&t) {
            Err(ScriptError::Parse)
        } else {
            eval_tokens(&t)
        },
    }
}

} // verus!
