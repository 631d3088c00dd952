//! From tokens to an expression.

use crate::lexer::{lemma_space_run, space_end, space_run};
use crate::number::truncated;
use crate::syntax::{
    defs_view, tokens_view, units_view, ConversionTarget, Expr, ExprView, FormatUnit,
    TargetView, Token, TokenView, UnitDef, UnitDefView, UnitView,
};
use crate::text::same_word;
use crate::units::{find_unit, parse_single_unit};
use vstd::prelude::*;
use vstd::slice::slice_subrange;

verus! {

/// The number of decimals that `x` asks for: its integer part, or none where that is no
/// `i32`.
pub open spec fn decimals_asked(x: real) -> int {
    if i32::MIN <= truncated(x) <= i32::MAX {
        truncated(x)
    } else {
        0
    }
}

/// The number of decimals that the tokens start with, and how many tokens say so: a
/// number and the word `decimal` or `dp`, one space between them allowed.
pub open spec fn decimals_at(tokens: Seq<TokenView>) -> Option<(int, int)> {
    let k = if tokens.len() >= 3 && tokens[1] is Space {
        2int
    } else {
        1int
    };
    if tokens.len() >= 2 && tokens[0] is Num && tokens[k] is Ident && (same_word(
        tokens[k]->Ident_0,
        "decimal"@,
    ) || same_word(tokens[k]->Ident_0, "dp"@)) {
        Some((decimals_asked(tokens[0]->Num_0), k + 1))
    } else {
        None
    }
}

/// The units that the tokens start with, spaces skipped, and what follows them.
pub open spec fn units_at(tokens: Seq<TokenView>, registry: Seq<UnitDefView>) -> (
    Seq<UnitView>,
    Seq<TokenView>,
)
    decreases tokens.len(),
{
    if tokens.len() == 0 {
        (Seq::empty(), tokens)
    } else {
        match tokens[0] {
            TokenView::Space => units_at(tokens.skip(1), registry),
            TokenView::Ident(word) => match find_unit(word, registry) {
                Some(u) => {
                    let (units, rest) = units_at(tokens.skip(1), registry);
                    (seq![u] + units, rest)
                },
                None => (Seq::empty(), tokens),
            },
            _ => (Seq::empty(), tokens),
        }
    }
}

/// The conversion target that the tokens start with, and what follows it. `rounds` says
/// which word asked for the conversion.
pub open spec fn target_at(
    tokens: Seq<TokenView>,
    registry: Seq<UnitDefView>,
    rounds: bool,
) -> Result<(TargetView, Seq<TokenView>), Seq<char>> {
    let t = tokens.skip(space_run(tokens));
    if t.len() == 0 {
        Err("Missing target after 'to'"@)
    } else {
        match decimals_at(t) {
            Some((dp, n)) => Ok(
                (TargetView { dp: Some(dp), units: None, rounds }, t.skip(n)),
            ),
            None => {
                let (units, rest) = units_at(t, registry);
                if units.len() == 0 {
                    Err("Invalid conversion target"@)
                } else {
                    Ok((TargetView { dp: None, units: Some(units), rounds }, rest))
                }
            },
        }
    }
}

/// What joins an expression to what follows it.
pub enum Operator {
    Add,
    Sub,
    Mul,
    Div,
    Mod,
    Apply,
    Convert(bool),
}

/// An operator, the number of tokens that it takes, and the level of its right operand.
pub struct Joint {
    pub operator: Operator,
    pub tokens: u8,
    pub operand: u8,
}

/// The levels of the grammar, from the one that binds loosest to the one that binds
/// tightest.
pub const CONCATENATION: u8 = 1;

pub const CONVERSION: u8 = 2;

pub const SUM: u8 = 3;

pub const PRODUCT: u8 = 4;

pub const SPACED_APPLICATION: u8 = 5;

pub const TIGHT_APPLICATION: u8 = 6;

pub const PRIMARY: u8 = 7;

/// The joint that a sign of a sum is.
pub open spec fn sum_joint(t: TokenView) -> Option<Joint> {
    if t is Plus {
        Some(Joint { operator: Operator::Add, tokens: 1, operand: PRODUCT })
    } else if t is Minus {
        Some(Joint { operator: Operator::Sub, tokens: 1, operand: PRODUCT })
    } else {
        None
    }
}

/// The grammar: what can follow an expression of `level` to make a longer one.
///
/// A text behind an expression is appended to it. A conversion takes all that stands
/// before it, and sums go on behind it. Operands side by side apply the left to the
/// right, more tightly where no space parts them.
pub open spec fn joint_at(level: int, tokens: Seq<TokenView>) -> Option<Joint> {
    if tokens.len() == 0 {
        None
    } else if level == CONCATENATION {
        if tokens[0] is String {
            Some(Joint { operator: Operator::Add, tokens: 0, operand: PRIMARY })
        } else if tokens[0] is Space && tokens.len() > 1 && tokens[1] is String {
            Some(Joint { operator: Operator::Add, tokens: 1, operand: PRIMARY })
        } else {
            None
        }
    } else if level == CONVERSION {
        if tokens[0] is To || tokens[0] is As {
            Some(Joint { operator: Operator::Convert(tokens[0] is To), tokens: 1, operand: 0 })
        } else if tokens[0] is Space && tokens.len() > 1 && (tokens[1] is To || tokens[1] is As) {
            Some(Joint { operator: Operator::Convert(tokens[1] is To), tokens: 2, operand: 0 })
        } else {
            sum_joint(tokens[0])
        }
    } else if level == SUM {
        sum_joint(tokens[0])
    } else if level == PRODUCT {
        if tokens[0] is Multiply {
            Some(Joint { operator: Operator::Mul, tokens: 1, operand: SPACED_APPLICATION })
        } else if tokens[0] is Divide {
            Some(Joint { operator: Operator::Div, tokens: 1, operand: SPACED_APPLICATION })
        } else if tokens[0] is Modulo {
            Some(Joint { operator: Operator::Mod, tokens: 1, operand: SPACED_APPLICATION })
        } else {
            None
        }
    } else if level == SPACED_APPLICATION {
        if tokens[0] is Space && tokens.len() > 1 && !(tokens[1] is String) {
            Some(Joint { operator: Operator::Apply, tokens: 1, operand: TIGHT_APPLICATION })
        } else {
            None
        }
    } else if level == TIGHT_APPLICATION {
        if tokens[0] is Num || tokens[0] is Duration || tokens[0] is Ident || tokens[0] is Now
            || tokens[0] is Underscore || tokens[0] is LParen {
            Some(Joint { operator: Operator::Apply, tokens: 0, operand: PRIMARY })
        } else {
            None
        }
    } else {
        None
    }
}

/// The expression that an operator makes of two.
pub open spec fn joined(operator: Operator, lhs: ExprView, rhs: ExprView) -> ExprView {
    match operator {
        Operator::Add => ExprView::Add(Box::new(lhs), Box::new(rhs)),
        Operator::Sub => ExprView::Sub(Box::new(lhs), Box::new(rhs)),
        Operator::Mul => ExprView::Mul(Box::new(lhs), Box::new(rhs)),
        Operator::Div => ExprView::Div(Box::new(lhs), Box::new(rhs)),
        Operator::Mod => ExprView::Mod(Box::new(lhs), Box::new(rhs)),
        _ => ExprView::Apply(Box::new(lhs), Box::new(rhs)),
    }
}

/// What is said of a token that no expression can start with. Both words that ask for a
/// conversion go by the name `To`.
pub open spec fn unexpected_token(t: TokenView) -> Seq<char> {
    "Unexpected syntax token: "@ + (match t {
        TokenView::Multiply => "Multiply"@,
        TokenView::Divide => "Divide"@,
        TokenView::Modulo => "Modulo"@,
        TokenView::RParen => "RParen"@,
        TokenView::Assign => "Assign"@,
        TokenView::Space => "Space"@,
        _ => "To"@,
    })
}

/// The expression of `level` that the tokens start with, and what follows it; or what is
/// wrong with the tokens.
///
/// An expression of one level is an operand of the next, and whatever the grammar lets
/// follow it, taken from left to right.
pub open spec fn parsed(level: int, tokens: Seq<TokenView>, registry: Seq<UnitDefView>) -> Result<
    (ExprView, Seq<TokenView>),
    Seq<char>,
>
    decreases tokens.len(), PRIMARY - level,
{
    if level < PRIMARY {
        match parsed(level + 1, tokens, registry) {
            Err(e) => Err(e),
            Ok((lhs, rest)) => if rest.len() < tokens.len() {
                extended(level, lhs, rest, registry)
            } else {
                Ok((lhs, rest))
            },
        }
    } else if tokens.len() == 0 {
        Err("Unexpected end of expression"@)
    } else {
        let rest = tokens.skip(1);
        match tokens[0] {
            TokenView::Num(x) => Ok((ExprView::Number(x), rest)),
            TokenView::Duration(x) => Ok((ExprView::Duration(x), rest)),
            TokenView::String(s) => Ok((ExprView::String(s), rest)),
            TokenView::Ident(s) => Ok((ExprView::Ident(s), rest)),
            TokenView::Now => Ok((ExprView::Now, rest)),
            TokenView::Underscore => Ok((ExprView::Underscore, rest)),
            TokenView::LParen => match parsed(CONCATENATION as int, rest, registry) {
                Err(e) => Err(e),
                Ok((e, after)) => if after.len() > 0 && after[0] is RParen {
                    Ok((e, after.skip(1)))
                } else {
                    Err("Missing closing parenthesis"@)
                },
            },
            TokenView::Minus => match parsed(PRIMARY as int, rest, registry) {
                Err(e) => Err(e),
                Ok((e, after)) => Ok((ExprView::UnaryMinus(Box::new(e)), after)),
            },
            TokenView::Plus => parsed(PRIMARY as int, rest, registry),
            t => Err(unexpected_token(t)),
        }
    }
}

/// `lhs` with all that can follow it at `level`.
pub open spec fn extended(
    level: int,
    lhs: ExprView,
    tokens: Seq<TokenView>,
    registry: Seq<UnitDefView>,
) -> Result<(ExprView, Seq<TokenView>), Seq<char>>
    decreases tokens.len(), PRIMARY + 1,
{
    match joint_at(level, tokens) {
        None => Ok((lhs, tokens)),
        Some(joint) => {
            let behind = tokens.skip(joint.tokens as int);
            let next = match joint.operator {
                Operator::Convert(rounds) => match target_at(behind, registry, rounds) {
                    Err(e) => Err(e),
                    Ok((target, rest)) => Ok((ExprView::To(Box::new(lhs), target), rest)),
                },
                operator => match parsed(joint.operand as int, behind, registry) {
                    Err(e) => Err(e),
                    Ok((rhs, rest)) => Ok((joined(operator, lhs, rhs), rest)),
                },
            };
            match next {
                Err(e) => Err(e),
                Ok((e, rest)) => if rest.len() < tokens.len() {
                    extended(level, e, rest, registry)
                } else {
                    Ok((e, rest))
                },
            }
        },
    }
}

/// Whether `rest` is the end of `tokens` behind at least one token.
pub open spec fn is_shorter_end(rest: Seq<TokenView>, tokens: Seq<TokenView>) -> bool {
    rest.len() < tokens.len() && rest == tokens.skip(tokens.len() - rest.len())
}

/// Whether `rest` is an end of `tokens`.
pub open spec fn is_end(rest: Seq<TokenView>, tokens: Seq<TokenView>) -> bool {
    rest.len() <= tokens.len() && rest == tokens.skip(tokens.len() - rest.len())
}

/// An end of an end is an end.
proof fn lemma_end_of_end(a: Seq<TokenView>, b: Seq<TokenView>, c: Seq<TokenView>)
    requires
        is_end(a, b),
        is_end(b, c),
    ensures
        is_end(a, c),
{
    assert(a =~= c.skip(c.len() - a.len()));
}

/// What follows units is an end of the tokens.
pub proof fn lemma_units_at(tokens: Seq<TokenView>, registry: Seq<UnitDefView>)
    ensures
        is_end(units_at(tokens, registry).1, tokens),
        units_at(tokens, registry).0.len() > 0 ==> units_at(tokens, registry).1.len()
            < tokens.len(),
    decreases tokens.len(),
{
    assert(tokens.skip(0) == tokens);
    if tokens.len() > 0 {
        lemma_units_at(tokens.skip(1), registry);
        lemma_end_of_end(units_at(tokens.skip(1), registry).1, tokens.skip(1), tokens);
    }
}

/// What follows a conversion target is an end of the tokens.
pub proof fn lemma_target_at(tokens: Seq<TokenView>, registry: Seq<UnitDefView>, rounds: bool)
    ensures
        target_at(tokens, registry, rounds) matches Ok((t, rest)) ==> is_shorter_end(rest, tokens),
{
    lemma_space_run(tokens);
    let t = tokens.skip(space_run(tokens));
    lemma_units_at(t, registry);
    if let Some((dp, n)) = decimals_at(t) {
        lemma_end_of_end(t.skip(n), t, tokens);
    } else {
        lemma_end_of_end(units_at(t, registry).1, t, tokens);
    }
}

/// An expression takes at least one token, and what follows it is the end of the tokens.
pub proof fn law_parse_consumes(level: int, tokens: Seq<TokenView>, registry: Seq<UnitDefView>)
    requires
        level <= PRIMARY,
    ensures
        parsed(level, tokens, registry) matches Ok((e, rest)) ==> is_shorter_end(rest, tokens),
    decreases tokens.len(), PRIMARY - level,
{
    if level < PRIMARY {
        law_parse_consumes(level + 1, tokens, registry);
        if let Ok((lhs, rest)) = parsed(level + 1, tokens, registry) {
            lemma_extended_consumes(level, lhs, rest, registry);
            if let Ok((e, after)) = extended(level, lhs, rest, registry) {
                lemma_end_of_end(after, rest, tokens);
            }
        }
    } else if tokens.len() > 0 {
        let rest = tokens.skip(1);
        law_parse_consumes(CONCATENATION as int, rest, registry);
        law_parse_consumes(PRIMARY as int, rest, registry);
        if let Ok((e, after)) = parsed(CONCATENATION as int, rest, registry) {
            lemma_end_of_end(after, rest, tokens);
            if after.len() > 0 {
                lemma_end_of_end(after.skip(1), after, tokens);
            }
        }
        if let Ok((e, after)) = parsed(PRIMARY as int, rest, registry) {
            lemma_end_of_end(after, rest, tokens);
        }
    }
}

/// `law_parse_consumes` for what follows an expression.
pub proof fn lemma_extended_consumes(
    level: int,
    lhs: ExprView,
    tokens: Seq<TokenView>,
    registry: Seq<UnitDefView>,
)
    ensures
        extended(level, lhs, tokens, registry) matches Ok((e, rest)) ==> is_end(rest, tokens),
    decreases tokens.len(), PRIMARY + 1,
{
    assert(tokens.skip(0) == tokens);
    if let Some(joint) = joint_at(level, tokens) {
        let behind = tokens.skip(joint.tokens as int);
        match joint.operator {
            Operator::Convert(rounds) => {
                lemma_target_at(behind, registry, rounds);
                if let Ok((target, rest)) = target_at(behind, registry, rounds) {
                    lemma_end_of_end(rest, behind, tokens);
                    let e = ExprView::To(Box::new(lhs), target);
                    lemma_extended_consumes(level, e, rest, registry);
                    if let Ok((e2, after)) = extended(level, e, rest, registry) {
                        lemma_end_of_end(after, rest, tokens);
                    }
                }
            },
            operator => {
                law_parse_consumes(joint.operand as int, behind, registry);
                if let Ok((rhs, rest)) = parsed(joint.operand as int, behind, registry) {
                    lemma_end_of_end(rest, behind, tokens);
                    let e = joined(operator, lhs, rhs);
                    lemma_extended_consumes(level, e, rest, registry);
                    if let Ok((e2, after)) = extended(level, e, rest, registry) {
                        lemma_end_of_end(after, rest, tokens);
                    }
                }
            },
        }
    }
}

/// Whether `r` says what `expected` says.
pub open spec fn same_parse(
    r: Result<(Expr, &[Token]), String>,
    expected: Result<(ExprView, Seq<TokenView>), Seq<char>>,
) -> bool {
    match (r, expected) {
        (Ok((e, rest)), Ok((f, after))) => e@ == f && tokens_view(rest@) == after,
        (Err(x), Err(y)) => x@ == y,
        _ => false,
    }
}

/// Whether `r` says what `expected` says.
pub open spec fn same_target(
    r: Result<(ConversionTarget, &[Token]), String>,
    expected: Result<(TargetView, Seq<TokenView>), Seq<char>>,
) -> bool {
    match (r, expected) {
        (Ok((t, rest)), Ok((u, after))) => t@ == u && tokens_view(rest@) == after,
        (Err(x), Err(y)) => x@ == y,
        _ => false,
    }
}

/// The tokens behind the first `n`.
pub fn skip_tokens(tokens: &[Token], n: usize) -> (r: &[Token])
    requires
        n <= tokens@.len(),
    ensures
        r@ == tokens@.skip(n as int),
        tokens_view(r@) == tokens_view(tokens@).skip(n as int),
{
    let r: &[Token] = slice_subrange(tokens, n, tokens.len());
    proof {
        assert(r@ =~= tokens@.skip(n as int));
        assert(tokens_view(r@) =~= tokens_view(tokens@).skip(n as int));
    }
    r
}

/// The number of decimals that the tokens start with, and how many tokens say so.
fn read_decimals(tokens: &[Token]) -> (r: Option<(i32, usize)>)
    ensures
        match r {
            Some((dp, n)) => decimals_at(tokens_view(tokens@)) == Some((dp as int, n as int)) && n
                <= tokens@.len(),
            None => decimals_at(tokens_view(tokens@)) is None,
        },
{
    let len: usize = tokens.len();
    if len < 2 {
        return None;
    }
    let ghost all = tokens_view(tokens@);
    assert(all[1] == tokens@[1]@);
    let k: usize = if len >= 3 && matches!(tokens[1], Token::Space) {
        2
    } else {
        1
    };
    assert(all[0] == tokens@[0]@ && all[k as int] == tokens@[k as int]@);
    if let Token::Num(x) = &tokens[0] {
        if let Token::Ident(word) = &tokens[k] {
            if word.as_str().eq_ignore_ascii_case("decimal") || word.as_str().eq_ignore_ascii_case(
                "dp",
            ) {
                let dp: i32 = match x.to_integer().as_i32() {
                    Some(n) => n,
                    None => 0,
                };
                return Some((dp, k + 1));
            }
        }
    }
    None
}

/// The units that the tokens start with, and how many tokens they take.
fn read_units(tokens: &[Token], registry: &[UnitDef]) -> (r: (Vec<FormatUnit>, usize))
    ensures
        r.1 <= tokens@.len(),
        (units_view(r.0@), tokens_view(tokens@).skip(r.1 as int)) == units_at(
            tokens_view(tokens@),
            defs_view(registry@),
        ),
{
    let ghost all = tokens_view(tokens@);
    let ghost defs = defs_view(registry@);
    let mut units: Vec<FormatUnit> = Vec::new();
    let mut i: usize = 0;
    proof {
        assert(all.skip(0) == all);
        assert(units_view(units@) + units_at(all, defs).0 =~= units_at(all, defs).0);
    }
    while i < tokens.len()
        invariant_except_break
            i <= tokens@.len(),
            ({
                let (more, rest) = units_at(all.skip(i as int), defs);
                units_at(all, defs) == (units_view(units@) + more, rest)
            }),
        invariant
            all == tokens_view(tokens@),
            defs == defs_view(registry@),
        ensures
            i <= tokens@.len(),
            units_at(all, defs) == (units_view(units@), all.skip(i as int)),
        decreases tokens@.len() - i,
    {
        let ghost rest = all.skip(i as int);
        let ghost done = units_view(units@);
        proof {
            assert(rest[0] == tokens@[i as int]@);
            assert(rest.skip(1) == all.skip(i + 1));
            assert(done + Seq::<UnitView>::empty() =~= done);
        }
        match &tokens[i] {
            Token::Space => {
                i = i + 1;
            },
            Token::Ident(word) => {
                match parse_single_unit(word.as_str(), registry) {
                    Ok(u) => {
                        units.push(u);
                        proof {
                            assert(units_view(units@) =~= done.push(u@));
                            let (more, after) = units_at(all.skip(i + 1), defs);
                            assert(done + (seq![u@] + more) =~= units_view(units@) + more);
                        }
                        i = i + 1;
                    },
                    Err(_) => {
                        break;
                    },
                }
            },
            _ => {
                break;
            },
        }
        proof {
            if i == tokens@.len() {
                assert(units_at(all.skip(i as int), defs).0 == Seq::<UnitView>::empty());
                assert(units_view(units@) + Seq::<UnitView>::empty() =~= units_view(units@));
            }
        }
    }
    (units, i)
}

/// Reads what stands behind a word that asks for a conversion.
pub fn parse_conversion_target<'a>(tokens: &'a [Token], registry: &[UnitDef], rounds: bool) -> (r:
    Result<(ConversionTarget, &'a [Token]), String>)
    ensures
        same_target(r, target_at(tokens_view(tokens@), defs_view(registry@), rounds)),
{
    proof {
        assert(tokens_view(tokens@).skip(0) == tokens_view(tokens@));
        lemma_space_run(tokens_view(tokens@));
    }
    let start: usize = space_end(tokens, 0);
    let behind: &[Token] = skip_tokens(tokens, start);
    if behind.len() == 0 {
        return Err("Missing target after 'to'".to_owned());
    }
    match read_decimals(behind) {
        Some((dp, n)) => Ok(
            (ConversionTarget { dp: Some(dp), units: None, rounds }, skip_tokens(behind, n)),
        ),
        None => {
            let (units, n) = read_units(behind, registry);
            if units.len() == 0 {
                Err("Invalid conversion target".to_owned())
            } else {
                Ok(
                    (
                        ConversionTarget { dp: None, units: Some(units), rounds },
                        skip_tokens(behind, n),
                    ),
                )
            }
        },
    }
}

/// The joint that a sign of a sum is.
fn read_sum_joint(t: &Token) -> (r: Option<Joint>)
    ensures
        r == sum_joint(t@),
{
    match t {
        Token::Plus => Some(Joint { operator: Operator::Add, tokens: 1, operand: PRODUCT }),
        Token::Minus => Some(Joint { operator: Operator::Sub, tokens: 1, operand: PRODUCT }),
        _ => None,
    }
}

/// What follows an expression of `level`, as the grammar has it.
fn read_joint(level: u8, tokens: &[Token]) -> (r: Option<Joint>)
    ensures
        r == joint_at(level as int, tokens_view(tokens@)),
{
    let len: usize = tokens.len();
    if len == 0 {
        return None;
    }
    let ghost all = tokens_view(tokens@);
    assert(all[0] == tokens@[0]@);
    assert(len > 1 ==> all[1] == tokens@[1]@);
    let spaced: bool = len > 1 && matches!(tokens[0], Token::Space);
    if level == CONCATENATION {
        if matches!(tokens[0], Token::String(_)) {
            return Some(Joint { operator: Operator::Add, tokens: 0, operand: PRIMARY });
        }
        if spaced && matches!(tokens[1], Token::String(_)) {
            return Some(Joint { operator: Operator::Add, tokens: 1, operand: PRIMARY });
        }
        None
    } else if level == CONVERSION {
        if matches!(tokens[0], Token::To | Token::As) {
            let rounds: bool = matches!(tokens[0], Token::To);
            return Some(Joint { operator: Operator::Convert(rounds), tokens: 1, operand: 0 });
        }
        if spaced && matches!(tokens[1], Token::To | Token::As) {
            let rounds: bool = matches!(tokens[1], Token::To);
            return Some(Joint { operator: Operator::Convert(rounds), tokens: 2, operand: 0 });
        }
        read_sum_joint(&tokens[0])
    } else if level == SUM {
        read_sum_joint(&tokens[0])
    } else if level == PRODUCT {
        match &tokens[0] {
            Token::Multiply => Some(
                Joint { operator: Operator::Mul, tokens: 1, operand: SPACED_APPLICATION },
            ),
            Token::Divide => Some(
                Joint { operator: Operator::Div, tokens: 1, operand: SPACED_APPLICATION },
            ),
            Token::Modulo => Some(
                Joint { operator: Operator::Mod, tokens: 1, operand: SPACED_APPLICATION },
            ),
            _ => None,
        }
    } else if level == SPACED_APPLICATION {
        if spaced && !matches!(tokens[1], Token::String(_)) {
            Some(Joint { operator: Operator::Apply, tokens: 1, operand: TIGHT_APPLICATION })
        } else {
            None
        }
    } else if level == TIGHT_APPLICATION {
        if matches!(tokens[0], Token::Num(_) | Token::Duration(_) | Token::Ident(_) | Token::Now
            | Token::Underscore | Token::LParen) {
            Some(Joint { operator: Operator::Apply, tokens: 0, operand: PRIMARY })
        } else {
            None
        }
    } else {
        None
    }
}

/// The expression that an operator makes of two.
fn join(operator: Operator, lhs: Expr, rhs: Expr) -> (r: Expr)
    ensures
        r@ == joined(operator, lhs@, rhs@),
{
    match operator {
        Operator::Add => Expr::Add(Box::new(lhs), Box::new(rhs)),
        Operator::Sub => Expr::Sub(Box::new(lhs), Box::new(rhs)),
        Operator::Mul => Expr::Mul(Box::new(lhs), Box::new(rhs)),
        Operator::Div => Expr::Div(Box::new(lhs), Box::new(rhs)),
        Operator::Mod => Expr::Mod(Box::new(lhs), Box::new(rhs)),
        _ => Expr::Apply(Box::new(lhs), Box::new(rhs)),
    }
}

/// What is said of a token that no expression can start with.
fn unexpected(t: &Token) -> (r: String)
    ensures
        r@ == unexpected_token(t@),
{
    let mut message: String = "Unexpected syntax token: ".to_owned();
    match t {
        Token::Multiply => message.append("Multiply"),
        Token::Divide => message.append("Divide"),
        Token::Modulo => message.append("Modulo"),
        Token::RParen => message.append("RParen"),
        Token::Assign => message.append("Assign"),
        Token::Space => message.append("Space"),
        _ => message.append("To"),
    }
    message
}

/// Parses an expression of `level`.
fn parse_level<'a>(level: u8, tokens: &'a [Token], registry: &[UnitDef]) -> (r: Result<
    (Expr, &'a [Token]),
    String,
>)
    requires
        level <= PRIMARY,
    ensures
        same_parse(r, parsed(level as int, tokens_view(tokens@), defs_view(registry@))),
    decreases tokens@.len(), PRIMARY + 1 - level,
{
    if level == PRIMARY {
        return parse_primary(tokens, registry);
    }
    let ghost all = tokens_view(tokens@);
    let ghost defs = defs_view(registry@);
    proof {
        law_parse_consumes(level + 1, all, defs);
    }
    let (first, after) = match parse_level(level + 1, tokens, registry) {
        Ok(parse) => parse,
        Err(e) => return Err(e),
    };
    let mut lhs: Expr = first;
    let mut rest: &'a [Token] = after;
    let mut done: bool = false;
    while !done
        invariant
            level < PRIMARY,
            all == tokens_view(tokens@),
            defs == defs_view(registry@),
            rest@.len() < tokens@.len(),
            parsed(level as int, all, defs) == (if done {
                Ok((lhs@, tokens_view(rest@)))
            } else {
                extended(level as int, lhs@, tokens_view(rest@), defs)
            }),
        decreases rest@.len(), (if done { 0int } else { 1int }),
    {
        let ghost here = tokens_view(rest@);
        match read_joint(level, rest) {
            None => {
                done = true;
            },
            Some(joint) => {
                let behind: &'a [Token] = skip_tokens(rest, joint.tokens as usize);
                match joint.operator {
                    Operator::Convert(rounds) => {
                        proof {
                            lemma_target_at(tokens_view(behind@), defs, rounds);
                        }
                        match parse_conversion_target(behind, registry, rounds) {
                            Ok((target, next)) => {
                                lhs = Expr::To(Box::new(lhs), target);
                                rest = next;
                            },
                            Err(e) => return Err(e),
                        }
                    },
                    operator => {
                        proof {
                            law_parse_consumes(joint.operand as int, tokens_view(behind@), defs);
                        }
                        match parse_level(joint.operand, behind, registry) {
                            Ok((rhs, next)) => {
                                lhs = join(operator, lhs, rhs);
                                rest = next;
                            },
                            Err(e) => return Err(e),
                        }
                    },
                }
            },
        }
    }
    Ok((lhs, rest))
}

/// Parses an expression that no operator stands in, unless in parentheses.
fn parse_primary<'a>(tokens: &'a [Token], registry: &[UnitDef]) -> (r: Result<
    (Expr, &'a [Token]),
    String,
>)
    ensures
        same_parse(r, parsed(PRIMARY as int, tokens_view(tokens@), defs_view(registry@))),
    decreases tokens@.len(), 0int,
{
    let ghost all = tokens_view(tokens@);
    if tokens.len() == 0 {
        return Err("Unexpected end of expression".to_owned());
    }
    assert(all[0] == tokens@[0]@);
    let rest: &'a [Token] = skip_tokens(tokens, 1);
    match &tokens[0] {
        Token::Num(x) => Ok((Expr::Number(x.clone()), rest)),
        Token::Duration(x) => Ok((Expr::Duration(x.clone()), rest)),
        Token::String(s) => Ok((Expr::String(s.clone()), rest)),
        Token::Ident(s) => Ok((Expr::Ident(s.clone()), rest)),
        Token::Now => Ok((Expr::Now, rest)),
        Token::Underscore => Ok((Expr::Underscore, rest)),
        Token::LParen => match parse_level(CONCATENATION, rest, registry) {
            Ok((e, after)) => {
                assert(after@.len() > 0 ==> tokens_view(after@)[0] == after@[0]@);
                if after.len() > 0 && matches!(after[0], Token::RParen) {
                    Ok((e, skip_tokens(after, 1)))
                } else {
                    Err("Missing closing parenthesis".to_owned())
                }
            },
            Err(e) => Err(e),
        },
        Token::Minus => match parse_primary(rest, registry) {
            Ok((e, after)) => Ok((Expr::UnaryMinus(Box::new(e)), after)),
            Err(e) => Err(e),
        },
        Token::Plus => parse_primary(rest, registry),
        t => Err(unexpected(t)),
    }
}

/// Parses the expression that the tokens start with, and gives back what follows it.
pub fn parse_expr<'a>(tokens: &'a [Token], registry: &[UnitDef]) -> (r: Result<
    (Expr, &'a [Token]),
    String,
>)
    ensures
        same_parse(r, parsed(CONCATENATION as int, tokens_view(tokens@), defs_view(registry@))),
{
    parse_level(CONCATENATION, tokens, registry)
}

} // verus!
