//! From a formula text to its tokens, and from the tokens in the order in
//! which they are written to the order in which a stack machine runs them.
use vstd::prelude::*;
use crate::error::{Error, Halt, Stop};
use crate::number::{Numerics, Table};
use crate::ops::{tokens, Arg, Token, NEG_SIGN, POS_SIGN};
use crate::parse::{arg_at, arg_in, lemma_arg_bounds, lemma_span, span, Class};
use crate::text::{chars_of, str_eq};

verus! {

/// The state of the conversion: the operators that wait, the output so far,
/// and whether the last token was one after which a sign is a unary one.
pub struct Yard {
    pub stack: Seq<Token>,
    pub out: Seq<Token>,
    pub last_op: bool,
}

/// How tightly an operator binds, and whether it groups to the right. `None`
/// for an operator text that is not known.
pub open spec fn precedence(t: Token) -> Option<(int, bool)> {
    match t {
        Token::Op(s) => if s == seq!['+'] || s == seq!['-'] || s == seq!['&'] {
            Some((5, false))
        } else if s == seq!['*'] || s == seq!['/'] {
            Some((10, false))
        } else if s == seq!['^'] {
            Some((15, true))
        } else if s == NEG_SIGN@ || s == POS_SIGN@ {
            Some((20, false))
        } else if s == seq!['%'] {
            Some((25, false))
        } else {
            None
        },
        Token::Eq(_) => Some((1, false)),
        _ => Some((0, false)),
    }
}

/// The binding strength of a token that waits on the stack.
pub open spec fn strength(t: Token) -> int {
    match precedence(t) {
        Some((p, _)) => p,
        None => 0,
    }
}

/// Whether a sign that follows this token is a unary one.
pub open spec fn expects_operand(t: Token) -> bool {
    match t {
        Token::Op(s) => s != seq!['%'],
        Token::Eq(_) => true,
        Token::OBracket(_) => true,
        _ => false,
    }
}

/// A sign where an operand is expected is a unary one.
pub open spec fn signed(t: Token, last_op: bool) -> Token {
    match t {
        Token::Op(s) => if last_op && s == seq!['-'] {
            Token::Op(NEG_SIGN@)
        } else if last_op && s == seq!['+'] {
            Token::Op(POS_SIGN@)
        } else {
            t
        },
        _ => t,
    }
}

/// Whether an argument begins at `i` or later, before the bracket that was
/// opened at depth 1 closes.
pub open spec fn has_argument(args: Seq<Token>, i: int, lvl: int) -> bool
    decreases args.len() - i,
{
    if i < 0 || i >= args.len() {
        false
    } else {
        match args[i] {
            Token::OBracket(_) => has_argument(args, i + 1, lvl + 1),
            Token::CBracket(_) => if lvl <= 1 {
                false
            } else {
                has_argument(args, i + 1, lvl - 1)
            },
            Token::Func(_, _) | Token::Number(_) | Token::Str(_) | Token::Rng(_, _) => true,
            _ => has_argument(args, i + 1, lvl),
        }
    }
}

/// Moves to the output the waiting operators that bind more tightly than
/// `pri`, or as tightly where the new operator groups to the left.
pub open spec fn pop_ops(stack: Seq<Token>, out: Seq<Token>, pri: int, right: bool) -> (
    Seq<Token>,
    Seq<Token>,
)
    decreases stack.len(),
{
    if stack.len() == 0 {
        (stack, out)
    } else if strength(stack.last()) > pri || (strength(stack.last()) == pri && !right) {
        pop_ops(stack.drop_last(), out.push(stack.last()), pri, right)
    } else {
        (stack, out)
    }
}

/// Moves the waiting operators to the output down to the innermost open
/// bracket: what is left below the bracket, the output, the bracket's text.
/// `None` where no bracket is open.
pub open spec fn pop_to_open(stack: Seq<Token>, out: Seq<Token>) -> Option<
    (Seq<Token>, Seq<Token>, Seq<char>),
>
    decreases stack.len(),
{
    if stack.len() == 0 {
        None
    } else {
        match stack.last() {
            Token::OBracket(b) => Some((stack.drop_last(), out, b)),
            t => pop_to_open(stack.drop_last(), out.push(t)),
        }
    }
}

/// Whether a closing bracket is of the kind of an opening one.
pub open spec fn brackets_pair(open: Seq<char>, close: Seq<char>) -> bool {
    (open == seq!['('] && close == seq![')']) || (open == seq!['['] && close == seq![']'])
}

/// The function that owns the bracket above `below` gets one more argument.
pub open spec fn count_argument(below: Seq<Token>) -> Seq<Token> {
    if below.len() > 0 {
        match below.last() {
            Token::Func(name, cnt) => below.drop_last().push(Token::Func(name, (cnt + 1) as usize)),
            _ => below,
        }
    } else {
        below
    }
}

/// The function that owns the bracket above `below` is complete.
pub open spec fn emit_function(below: Seq<Token>, out: Seq<Token>) -> (Seq<Token>, Seq<Token>) {
    if below.len() > 0 && below.last() is Func {
        (below.drop_last(), out.push(below.last()))
    } else {
        (below, out)
    }
}

/// What the token at `idx` does to the state.
pub open spec fn yard_step(y: Yard, args: Seq<Token>, idx: int) -> Result<Yard, Error> {
    match args[idx] {
        Token::OBracket(_) => Ok(Yard { stack: y.stack.push(args[idx]), out: y.out, last_op: true }),
        Token::Number(_) | Token::Str(_) | Token::Rng(_, _) | Token::Bool(_) => Ok(
            Yard { stack: y.stack, out: y.out.push(args[idx]), last_op: false },
        ),
        Token::Func(name, _) => Ok(
            Yard {
                stack: y.stack.push(
                    Token::Func(name, if has_argument(args, idx + 1, 0) { 1 } else { 0 }),
                ),
                out: y.out,
                last_op: false,
            },
        ),
        Token::End => Ok(y),
        Token::CBracket(b) => match pop_to_open(y.stack, y.out) {
            None => Err(Error::UnmatchedBracket),
            Some((below, out, open)) => if !brackets_pair(open, b) {
                Err(Error::BracketMismatch)
            } else {
                Ok(
                    Yard {
                        stack: emit_function(below, out).0,
                        out: emit_function(below, out).1,
                        last_op: false,
                    },
                )
            },
        },
        Token::Comma => match pop_to_open(y.stack, y.out) {
            None => Err(Error::CommaOutsideBrackets),
            Some((below, out, open)) => Ok(
                Yard {
                    stack: count_argument(below).push(Token::OBracket(open)),
                    out: out,
                    last_op: true,
                },
            ),
        },
        Token::Eq(_) | Token::Op(_) => {
            let t = signed(args[idx], y.last_op);
            match precedence(t) {
                None => Err(Error::UnsupportedOperator),
                Some((pri, right)) => Ok(
                    Yard {
                        stack: pop_ops(y.stack, y.out, pri, right).0.push(t),
                        out: pop_ops(y.stack, y.out, pri, right).1,
                        last_op: expects_operand(t),
                    },
                ),
            }
        },
    }
}

/// The state after the tokens from `idx` on; an `End` token ends the input.
pub open spec fn yard_run(y: Yard, args: Seq<Token>, idx: int) -> Result<Yard, Error>
    decreases args.len() - idx,
{
    if idx < 0 || idx >= args.len() || args[idx] is End {
        Ok(y)
    } else {
        match yard_step(y, args, idx) {
            Err(e) => Err(e),
            Ok(next) => yard_run(next, args, idx + 1),
        }
    }
}

/// Whether an opening bracket still waits.
pub open spec fn bracket_waits(stack: Seq<Token>) -> bool {
    exists|i: int| 0 <= i < stack.len() && #[trigger] stack[i] is OBracket
}

/// The tokens of a formula in postfix order: every operator after its
/// operands, every function, with the number of its arguments, after them.
/// The operators that still wait at the end of the input follow, the last to
/// wait first. An opening bracket that still waits then was never closed,
/// which is an error.
pub open spec fn postfix(args: Seq<Token>) -> Result<Seq<Token>, Error> {
    match yard_run(Yard { stack: Seq::empty(), out: Seq::empty(), last_op: true }, args, 0) {
        Err(e) => Err(e),
        Ok(y) => if bracket_waits(y.stack) {
            Err(Error::UnmatchedBracket)
        } else {
            Ok(y.out + y.stack.reverse())
        },
    }
}

/// No function on the stack has more than `n` arguments.
pub open spec fn counts_within(stack: Seq<Token>, n: int) -> bool {
    forall|i: int|
        0 <= i < stack.len() ==> (#[trigger] stack[i] matches Token::Func(_, c) ==> c <= n)
}

fn is_char(s: &String, c: char) -> (r: bool)
    ensures
        r == (s@ == seq![c]),
{
    let t = s.as_str();
    let r = t.unicode_len() == 1 && t.get_char(0) == c;
    proof {
        if r {
            assert(s@ =~= seq![c]);
        }
    }
    r
}

// -> priority, right_assoc
fn priority(arg: &Arg) -> (r: Option<(u16, bool)>)
    ensures
        match r {
            Some((p, right)) => precedence(arg@) == Some((p as int, right)),
            None => precedence(arg@) is None,
        },
{
    match arg {
        Arg::Op(s) => {
            if is_char(s, '+') || is_char(s, '-') || is_char(s, '&') {
                Some((5, false))
            } else if is_char(s, '*') || is_char(s, '/') {
                Some((10, false))
            } else if is_char(s, '^') {
                Some((15, true))
            } else if str_eq(s.as_str(), NEG_SIGN) || str_eq(s.as_str(), POS_SIGN) {
                Some((20, false))
            } else if is_char(s, '%') {
                Some((25, false))
            } else {
                None
            }
        },
        Arg::Eq(_) => Some((1, false)),
        _ => Some((0, false)),
    }
}

fn is_bin_op(arg: &Arg) -> (r: bool)
    ensures
        r == expects_operand(arg@),
{
    match arg {
        Arg::Op(s) => !is_char(s, '%'),
        Arg::Eq(_) | Arg::OBracket(_) => true,
        _ => false,
    }
}

fn lookup_func_arg(args: &[Arg], idx: usize) -> (r: bool)
    requires
        idx <= args@.len(),
    ensures
        r == has_argument(tokens(args@), idx as int, 0),
{
    let mut lvl: usize = 0;
    let mut i: usize = idx;
    while i < args.len()
        invariant
            idx <= i <= args@.len(),
            lvl <= i - idx,
            has_argument(tokens(args@), idx as int, 0) == has_argument(
                tokens(args@),
                i as int,
                lvl as int,
            ),
        decreases args@.len() - i,
    {
        assert(tokens(args@)[i as int] == args@[i as int]@);
        match &args[i] {
            Arg::OBracket(_) => {
                lvl += 1;
            },
            Arg::CBracket(_) => {
                if lvl <= 1 {
                    return false;
                }
                lvl -= 1;
            },
            Arg::Func(_, _) | Arg::Number(_) | Arg::Str(_) | Arg::Rng(_, _) => {
                return true;
            },
            _ => {},
        }
        i += 1;
    }
    false
}

/// The tokens of a vector with one more argument.
pub proof fn lemma_tokens_push(v: Seq<Arg>, a: Arg)
    ensures
        tokens(v.push(a)) == tokens(v).push(a@),
{
    assert(tokens(v.push(a)) =~= tokens(v).push(a@));
}

/// The tokens of a vector without its last argument.
pub proof fn lemma_tokens_drop_last(v: Seq<Arg>)
    requires
        v.len() > 0,
    ensures
        tokens(v.drop_last()) == tokens(v).drop_last(),
        tokens(v).last() == v.last()@,
{
    assert(tokens(v.drop_last()) =~= tokens(v).drop_last());
}

fn pop_operators(stack: &mut Vec<Arg>, expr: &mut Vec<Arg>, pri: u16, right: bool)
    ensures
        (tokens(final(stack)@), tokens(final(expr)@)) == pop_ops(
            tokens(old(stack)@),
            tokens(old(expr)@),
            pri as int,
            right,
        ),
        forall|n: int| counts_within(tokens(old(stack)@), n) ==> counts_within(tokens(final(stack)@), n),
{
    loop
        invariant
            pop_ops(tokens(stack@), tokens(expr@), pri as int, right) == pop_ops(
                tokens(old(stack)@),
                tokens(old(expr)@),
                pri as int,
                right,
            ),
            forall|n: int| counts_within(tokens(old(stack)@), n) ==> counts_within(tokens(stack@), n),
        decreases stack@.len(),
    {
        if stack.len() == 0 {
            return ;
        }
        let st_pri: u16 = match priority(&stack[stack.len() - 1]) {
            Some((p, _)) => p,
            None => 0,
        };
        proof {
            lemma_tokens_drop_last(stack@);
        }
        if st_pri > pri || (st_pri == pri && !right) {
            let ghost before = stack@;
            let ghost out = expr@;
            let top = stack.pop().unwrap();
            proof {
                assert(stack@ =~= before.drop_last());
                lemma_tokens_push(out, top);
                assert forall|n: int| counts_within(tokens(before), n) implies counts_within(
                    tokens(stack@),
                    n,
                ) by {
                    assert forall|i: int| 0 <= i < tokens(stack@).len() implies (
                    #[trigger] tokens(stack@)[i] matches Token::Func(_, c) ==> c <= n) by {
                        assert(tokens(stack@)[i] == tokens(before)[i]);
                    }
                }
            }
            expr.push(top);
        } else {
            return ;
        }
    }
}

/// Moves operators to the output down to the innermost open bracket, which
/// leaves the stack too; its text is returned.
fn pop_to_bracket(stack: &mut Vec<Arg>, expr: &mut Vec<Arg>) -> (r: Option<String>)
    ensures
        match r {
            Some(b) => pop_to_open(tokens(old(stack)@), tokens(old(expr)@)) == Some(
                (tokens(final(stack)@), tokens(final(expr)@), b@),
            ),
            None => pop_to_open(tokens(old(stack)@), tokens(old(expr)@)) is None,
        },
        forall|n: int| counts_within(tokens(old(stack)@), n) ==> counts_within(tokens(final(stack)@), n),
{
    loop
        invariant
            pop_to_open(tokens(stack@), tokens(expr@)) == pop_to_open(
                tokens(old(stack)@),
                tokens(old(expr)@),
            ),
            forall|n: int| counts_within(tokens(old(stack)@), n) ==> counts_within(tokens(stack@), n),
        decreases stack@.len(),
    {
        let ghost before = stack@;
        let ghost out = expr@;
        proof {
            if before.len() > 0 {
                lemma_tokens_drop_last(before);
            }
        }
        match stack.pop() {
            None => {
                return None;
            },
            Some(st) => {
                proof {
                    assert(stack@ =~= before.drop_last());
                    assert forall|n: int| counts_within(tokens(before), n) implies counts_within(
                        tokens(stack@),
                        n,
                    ) by {
                        assert forall|i: int| 0 <= i < tokens(stack@).len() implies (
                        #[trigger] tokens(stack@)[i] matches Token::Func(_, c) ==> c <= n) by {
                            assert(tokens(stack@)[i] == tokens(before)[i]);
                        }
                    }
                }
                match st {
                    Arg::OBracket(b) => {
                        return Some(b);
                    },
                    other => {
                        proof {
                            lemma_tokens_push(out, other);
                        }
                        expr.push(other);
                    },
                }
            },
        }
    }
}

/// Moves the operators that still wait to the output, the last to wait
/// first. An opening bracket among them is an error.
fn move_waiting(ops: Vec<Arg>, expr: &mut Vec<Arg>) -> (r: Result<(), Error>)
    ensures
        match r {
            Ok(_) => !bracket_waits(tokens(ops@)) && tokens(final(expr)@) == tokens(old(expr)@)
                + tokens(ops@).reverse(),
            Err(e) => bracket_waits(tokens(ops@)) && e == Error::UnmatchedBracket,
        },
{
    let ghost waiting = ops@;
    let mut stack = ops;
    let ghost done = expr@;
    assert(tokens(waiting).skip(waiting.len() as int).reverse() =~= Seq::<Token>::empty());
    assert(tokens(done) + Seq::<Token>::empty() =~= tokens(done));
    while stack.len() > 0
        invariant
            stack@ == waiting.take(stack@.len() as int),
            stack@.len() <= waiting.len(),
            waiting == ops@,
            done == old(expr)@,
            forall|j: int|
                stack@.len() <= j < waiting.len() ==> !(#[trigger] tokens(waiting)[j] is OBracket),
            tokens(expr@) == tokens(done) + tokens(waiting).skip(stack@.len() as int).reverse(),
        decreases stack@.len(),
    {
        let ghost n = stack@.len() as int;
        let ghost out = expr@;
        let a = stack.pop().unwrap();
        assert(a == waiting[n - 1]);
        assert(tokens(waiting)[n - 1] == a@);
        if let Arg::OBracket(_) = a {
            return Err(Error::UnmatchedBracket);
        }
        proof {
            lemma_tokens_push(out, a);
            assert(stack@ =~= waiting.take(n - 1));
            assert(tokens(waiting).skip(n - 1).reverse() =~= tokens(waiting).skip(n).reverse().push(
                a@,
            ));
            assert((tokens(done) + tokens(waiting).skip(n).reverse()).push(a@) =~= tokens(done)
                + tokens(waiting).skip(n - 1).reverse());
        }
        expr.push(a);
    }
    proof {
        assert(tokens(waiting).skip(0) =~= tokens(waiting));
    }
    Ok(())
}

/// Converts tokens in the order in which they are written into postfix
/// order. An operator text that is not known is refused, and so is an
/// opening bracket that is never closed.
pub fn expr_to_stack(args: &[Arg]) -> (r: Result<Vec<Arg>, Error>)
    ensures
        match r {
            Ok(v) => postfix(tokens(args@)) == Ok::<_, Error>(tokens(v@)),
            Err(e) => postfix(tokens(args@)) == Err::<Seq<Token>, _>(e),
        },
{
    let mut is_last_op = true;
    let mut stack: Vec<Arg> = Vec::new();
    let mut expr: Vec<Arg> = Vec::new();
    let ghost toks = tokens(args@);
    let ghost start = Yard { stack: Seq::empty(), out: Seq::empty(), last_op: true };
    assert(tokens(stack@) =~= Seq::<Token>::empty());
    assert(tokens(expr@) =~= Seq::<Token>::empty());
    let mut idx: usize = 0;
    let mut ended = false;
    while idx < args.len() && !ended
        invariant
            idx <= args@.len(),
            toks == tokens(args@),
            start == (Yard { stack: Seq::empty(), out: Seq::empty(), last_op: true }),
            ended ==> idx < args@.len() && toks[idx as int] is End,
            counts_within(tokens(stack@), idx as int),
            yard_run(start, toks, 0) == yard_run(
                Yard { stack: tokens(stack@), out: tokens(expr@), last_op: is_last_op },
                toks,
                idx as int,
            ),
        decreases args@.len() - idx + if ended { 0int } else { 1int },
    {
        let arg = &args[idx];
        let ghost y = Yard { stack: tokens(stack@), out: tokens(expr@), last_op: is_last_op };
        let ghost before = stack@;
        let ghost out = expr@;
        assert(toks[idx as int] == arg@);
        match arg {
            Arg::OBracket(_) => {
                let a = arg.clone();
                proof {
                    lemma_tokens_push(before, a);
                }
                stack.push(a);
                is_last_op = true;
            },
            Arg::Number(_) | Arg::Str(_) | Arg::Rng(_, _) | Arg::Bool(_) => {
                let a = arg.clone();
                proof {
                    lemma_tokens_push(out, a);
                }
                expr.push(a);
                is_last_op = false;
            },
            Arg::Func(name, _) => {
                let cnt: usize = if lookup_func_arg(args, idx + 1) { 1 } else { 0 };
                let a = Arg::Func(name.clone(), cnt);
                proof {
                    lemma_tokens_push(before, a);
                }
                stack.push(a);
                is_last_op = false;
            },
            Arg::End => {
                ended = true;
            },
            Arg::CBracket(b) => {
                let open = match pop_to_bracket(&mut stack, &mut expr) {
                    None => {
                        assert(yard_step(y, toks, idx as int) == Err::<Yard, _>(
                            Error::UnmatchedBracket,
                        ));
                        return Err(Error::UnmatchedBracket);
                    },
                    Some(open) => open,
                };
                if !((is_char(&open, '(') && is_char(b, ')')) || (is_char(&open, '[') && is_char(
                    b,
                    ']',
                ))) {
                    assert(yard_step(y, toks, idx as int) == Err::<Yard, _>(
                        Error::BracketMismatch,
                    ));
                    return Err(Error::BracketMismatch);
                }
                let ghost below = stack@;
                let ghost out2 = expr@;
                let top_is_func = stack.len() > 0 && stack[stack.len() - 1].is_func();
                proof {
                    if below.len() > 0 {
                        lemma_tokens_drop_last(below);
                    }
                }
                if top_is_func {
                    let f = stack.pop().unwrap();
                    proof {
                        assert(stack@ =~= below.drop_last());
                        lemma_tokens_push(out2, f);
                    }
                    expr.push(f);
                }
                is_last_op = false;
            },
            Arg::Comma => {
                let open = match pop_to_bracket(&mut stack, &mut expr) {
                    None => {
                        assert(yard_step(y, toks, idx as int) == Err::<Yard, _>(
                            Error::CommaOutsideBrackets,
                        ));
                        return Err(Error::CommaOutsideBrackets);
                    },
                    Some(open) => open,
                };
                let ghost below = stack@;
                proof {
                    if below.len() > 0 {
                        lemma_tokens_drop_last(below);
                    }
                }
                let top_is_func = stack.len() > 0 && stack[stack.len() - 1].is_func();
                if top_is_func {
                    match stack.pop().unwrap() {
                        Arg::Func(name, arg_cnt) => {
                            assert(tokens(below)[below.len() - 1] == Token::Func(name@, arg_cnt));
                            assert(arg_cnt <= idx);
                            let f = Arg::Func(name, arg_cnt + 1);
                            proof {
                                assert(stack@ =~= below.drop_last());
                                lemma_tokens_push(stack@, f);
                            }
                            stack.push(f);
                        },
                        _ => {},
                    }
                }
                let ob = Arg::OBracket(open);
                proof {
                    lemma_tokens_push(stack@, ob);
                }
                stack.push(ob);
                is_last_op = true;
            },
            Arg::Eq(_) | Arg::Op(_) => {
                let a: Arg = match arg {
                    Arg::Op(s) => if is_last_op && is_char(s, '-') {
                        Arg::Op(NEG_SIGN.to_owned())
                    } else if is_last_op && is_char(s, '+') {
                        Arg::Op(POS_SIGN.to_owned())
                    } else {
                        arg.clone()
                    },
                    _ => arg.clone(),
                };
                assert(a@ == signed(arg@, is_last_op));
                let (pri, right) = match priority(&a) {
                    Some(x) => x,
                    None => {
                        assert(yard_step(y, toks, idx as int) == Err::<Yard, _>(
                            Error::UnsupportedOperator,
                        ));
                        return Err(Error::UnsupportedOperator);
                    },
                };
                is_last_op = is_bin_op(&a);
                pop_operators(&mut stack, &mut expr, pri, right);
                proof {
                    lemma_tokens_push(stack@, a);
                }
                stack.push(a);
            },
        }
        if ended {
            continue ;
        }
        proof {
            let next = Yard { stack: tokens(stack@), out: tokens(expr@), last_op: is_last_op };
            assert(yard_step(y, toks, idx as int) == Ok::<_, Error>(next));
            assert(counts_within(tokens(stack@), idx + 1)) by {
                assert(counts_within(tokens(before), idx + 1));
                assert forall|i: int| 0 <= i < tokens(stack@).len() implies (
                #[trigger] tokens(stack@)[i] matches Token::Func(_, c) ==> c <= idx + 1) by {
                    if i < tokens(before).len() && tokens(stack@)[i] == tokens(before)[i] {
                    }
                }
            }
        }
        idx += 1;
    }
    let ghost fin = Yard { stack: tokens(stack@), out: tokens(expr@), last_op: is_last_op };
    assert(yard_run(start, toks, 0) == Ok::<_, Error>(fin));
    match move_waiting(stack, &mut expr) {
        Err(e) => Err(e),
        Ok(_) => Ok(expr),
    }
}

/// The tokens of the text from `i` on. Whitespace before a token is passed
/// over.
pub open spec fn tokens_from(s: Seq<char>, i: int, t: Table) -> Result<Seq<Token>, Halt>
    decreases s.len() - i,
    when 0 <= i <= s.len()
    via tokens_from_decreases
{
    match arg_at(s, span(s, Class::White, i), t) {
        Err(h) => Err(h),
        Ok((tok, e)) => if tok is End {
            Ok(Seq::empty())
        } else {
            match tokens_from(s, e, t) {
                Err(h) => Err(h),
                Ok(rest) => Ok(seq![tok] + rest),
            }
        },
    }
}

#[via_fn]
proof fn tokens_from_decreases(s: Seq<char>, i: int, t: Table) {
    lemma_span(s, Class::White, i);
    lemma_arg_bounds(s, span(s, Class::White, i), t);
}

/// What the rest of a text adds to the tokens read so far.
pub open spec fn tokens_after(acc: Seq<Token>, rest: Result<Seq<Token>, Halt>) -> Result<
    Seq<Token>,
    Halt,
> {
    match rest {
        Ok(r) => Ok(acc + r),
        Err(h) => Err(h),
    }
}

/// Splits a formula, without its leading `=`, into tokens.
pub fn str_expr_to_vec(s: &str, numbers: &Numerics) -> (r: Result<Vec<Arg>, Stop>)
    ensures
        match r {
            Ok(v) => tokens_from(s@, 0, numbers@) == Ok::<_, Halt>(tokens(v@)),
            Err(e) => tokens_from(s@, 0, numbers@) == Err::<Seq<Token>, _>(e@),
        },
{
    let v = chars_of(s);
    let mut args: Vec<Arg> = Vec::new();
    let mut i: usize = 0;
    proof {
        assert(tokens(args@) =~= Seq::<Token>::empty());
        if tokens_from(s@, 0, numbers@) is Ok {
            let all = tokens_from(s@, 0, numbers@)->Ok_0;
            assert(Seq::<Token>::empty() + all =~= all);
        }
    }
    loop
        invariant
            i <= v@.len(),
            v@ == s@,
            tokens_from(s@, 0, numbers@) == tokens_after(
                tokens(args@),
                tokens_from(s@, i as int, numbers@),
            ),
        decreases v@.len() - i,
    {
        let j = skip_spaces(&v, i);
        let ghost acc = args@;
        match arg_in(&v, j, numbers) {
            Err(e) => {
                return Err(e);
            },
            Ok((arg, e)) => {
                if let Arg::End = arg {
                    assert(tokens(acc) + Seq::<Token>::empty() =~= tokens(acc));
                    return Ok(args);
                }
                proof {
                    lemma_tokens_push(acc, arg);
                    let rest = tokens_from(s@, e as int, numbers@);
                    if rest is Ok {
                        assert(tokens(acc) + (seq![arg@] + rest->Ok_0) =~= tokens(acc).push(arg@)
                            + rest->Ok_0);
                    }
                }
                args.push(arg);
                i = e;
            },
        }
    }
}

/// Where the ASCII whitespace that begins at `i` ends.
pub fn skip_spaces(v: &Vec<char>, i: usize) -> (e: usize)
    requires
        i <= v@.len(),
    ensures
        e == span(v@, Class::White, i as int),
        i <= e <= v@.len(),
{
    let mut e: usize = i;
    while e < v.len() && crate::parse::is_white(v[e])
        invariant
            i <= e <= v@.len(),
            span(v@, Class::White, i as int) == span(v@, Class::White, e as int),
        decreases v@.len() - e,
    {
        e += 1;
    }
    e
}

} // verus!
