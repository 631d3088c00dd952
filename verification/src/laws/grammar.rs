//! Laws of the grammar: which operators bind tighter than others, and in which order.

use crate::lexer::{lemma_space_run, lemma_space_run_is, space_run};
use crate::number::truncated;
use crate::parser::{
    decimals_at, extended, is_end, joined, joint_at, law_parse_consumes,
    lemma_extended_consumes, lemma_target_at, lemma_units_at, parsed, target_at, units_at,
    Operator, CONCATENATION, CONVERSION, PRIMARY, PRODUCT, SPACED_APPLICATION, SUM,
    TIGHT_APPLICATION,
};
use crate::syntax::{ExprView, TargetView, TokenView, UnitDefView, UnitView};
use crate::text::same_word;
use crate::units::find_unit;
use vstd::prelude::*;

verus! {

/// Whether all of the tokens make the expression `e` of `level`.
pub open spec fn is_row(
    level: int,
    tokens: Seq<TokenView>,
    e: ExprView,
    registry: Seq<UnitDefView>,
) -> bool {
    &&& tokens.len() > 0
    &&& !(tokens.last() is Space)
    &&& parsed(level, tokens, registry) == Ok::<(ExprView, Seq<TokenView>), Seq<char>>(
        (e, Seq::empty()),
    )
}

/// Whether nothing from `level` on goes on with the tokens.
spec fn stops(level: int, tokens: Seq<TokenView>) -> bool {
    forall|l: int| level <= l <= PRIMARY ==> (#[trigger] joint_at(l, tokens)) is None
}

/// Whether no conversion target goes on with the tokens.
spec fn ends_target(tokens: Seq<TokenView>) -> bool {
    tokens.len() > 0 && !(tokens[0] is Space) && !(tokens[0] is Ident)
}

/// The level from which on the operands are that follow an expression of `level`.
spec fn operand_level(level: int) -> int {
    if level == CONVERSION {
        PRODUCT as int
    } else {
        level + 1
    }
}

/// What follows an expression at its end, where `more` follows the tokens: `more`, or what
/// goes on with it.
spec fn continued(
    level: int,
    e: ExprView,
    rest: Seq<TokenView>,
    more: Seq<TokenView>,
    registry: Seq<UnitDefView>,
) -> Result<(ExprView, Seq<TokenView>), Seq<char>> {
    if rest.len() > 0 {
        Ok((e, rest + more))
    } else {
        extended(level, e, more, registry)
    }
}

/// The units that tokens start with, where more tokens follow.
proof fn lemma_units_before(
    tokens: Seq<TokenView>,
    more: Seq<TokenView>,
    registry: Seq<UnitDefView>,
)
    requires
        units_at(tokens, registry).1.len() > 0 || ends_target(more),
    ensures
        units_at(tokens + more, registry) == (
            units_at(tokens, registry).0,
            units_at(tokens, registry).1 + more,
        ),
    decreases tokens.len(),
{
    let all = tokens + more;
    if tokens.len() == 0 {
        assert(all =~= more);
        assert(units_at(all, registry).0 =~= Seq::<UnitView>::empty());
        assert(tokens + more =~= more);
    } else {
        assert(all[0] == tokens[0]);
        assert(all.skip(1) =~= tokens.skip(1) + more);
        match tokens[0] {
            TokenView::Space => {
                lemma_units_before(tokens.skip(1), more, registry);
            },
            TokenView::Ident(word) => {
                if find_unit(word, registry) is Some {
                    lemma_units_before(tokens.skip(1), more, registry);
                }
            },
            _ => {},
        }
    }
}

/// A conversion target, where more tokens follow.
proof fn lemma_target_before(
    tokens: Seq<TokenView>,
    more: Seq<TokenView>,
    registry: Seq<UnitDefView>,
    rounds: bool,
)
    requires
        target_at(tokens, registry, rounds) matches Ok((target, rest)) && (rest.len() > 0
            || ends_target(more)),
    ensures
        target_at(tokens + more, registry, rounds) == (match target_at(tokens, registry, rounds) {
            Ok((target, rest)) => Ok::<(TargetView, Seq<TokenView>), Seq<char>>(
                (target, rest + more),
            ),
            Err(e) => Err(e),
        }),
{
    let all = tokens + more;
    let n = space_run(tokens);
    lemma_space_run(tokens);
    let t = tokens.skip(n);
    assert(t.len() > 0);
    assert forall|i: int| 0 <= i < n implies (#[trigger] all[i]) is Space by {
        assert(all[i] == tokens[i]);
    }
    assert(all[n] == tokens[n]);
    lemma_space_run_is(all, n);
    let u = all.skip(n);
    assert(u =~= t + more);
    assert(u[0] == t[0]);
    lemma_units_at(t, registry);
    if let Some((dp, k)) = decimals_at(t) {
        assert(t.len() >= k);
        assert(forall|i: int| 0 <= i < k ==> #[trigger] u[i] == t[i]);
        assert(u[1] == t[1]);
        assert(decimals_at(u) == decimals_at(t));
        assert(u.skip(k) =~= t.skip(k) + more);
    } else {
        assert(t[0] is Ident);
        assert(decimals_at(u) is None);
        lemma_units_before(t, more, registry);
    }
}

/// What can follow tokens does not depend on what stands behind them.
proof fn lemma_joint_before(level: int, tokens: Seq<TokenView>, more: Seq<TokenView>)
    requires
        tokens.len() > 0,
        !(tokens.last() is Space),
    ensures
        joint_at(level, tokens + more) == joint_at(level, tokens),
{
    let all = tokens + more;
    assert(all[0] == tokens[0]);
    if tokens.len() > 1 {
        assert(all[1] == tokens[1]);
    } else {
        assert(tokens[0] == tokens.last());
    }
}

/// An end of tokens that do not end with a space does not end with one.
proof fn lemma_end_has_last(rest: Seq<TokenView>, tokens: Seq<TokenView>)
    requires
        is_end(rest, tokens),
        rest.len() > 0,
    ensures
        rest.last() == tokens.last(),
{
}

/// An expression, where more tokens follow: it is the same, and goes on with what can go
/// on at its own level.
proof fn lemma_parsed_before(
    level: int,
    tokens: Seq<TokenView>,
    more: Seq<TokenView>,
    registry: Seq<UnitDefView>,
)
    requires
        CONCATENATION <= level <= PRIMARY,
        tokens.len() > 0,
        !(tokens.last() is Space),
        parsed(level, tokens, registry) matches Ok((e, rest)) && (rest.len() > 0 || (stops(
            level + 1,
            more,
        ) && (level <= CONVERSION ==> ends_target(more)))),
    ensures
        parsed(level, tokens + more, registry) == (match parsed(level, tokens, registry) {
            Ok((e, rest)) => continued(level, e, rest, more, registry),
            Err(e) => Err(e),
        }),
    decreases tokens.len(), PRIMARY - level,
{
    let all = tokens + more;
    let (e, rest) = parsed(level, tokens, registry)->Ok_0;
    law_parse_consumes(level, tokens, registry);
    if level < PRIMARY {
        law_parse_consumes(level + 1, tokens, registry);
        let (lhs, behind) = parsed(level + 1, tokens, registry)->Ok_0;
        lemma_extended_consumes(level, lhs, behind, registry);
        lemma_parsed_before(level + 1, tokens, more, registry);
        if behind.len() > 0 {
            lemma_end_has_last(behind, tokens);
            lemma_extended_before(level, lhs, behind, more, registry);
            assert((behind + more).len() < all.len());
        } else {
            assert(rest.len() == 0);
            assert(joint_at(level + 1, more) is None);
            assert(extended(level + 1, lhs, more, registry) == Ok::<
                (ExprView, Seq<TokenView>),
                Seq<char>,
            >((lhs, more)));
            assert(more.len() < all.len());
            assert(e == lhs);
        }
    } else {
        let inner = tokens.skip(1);
        assert(all[0] == tokens[0]);
        assert(all.skip(1) =~= inner + more);
        assert(joint_at(level, more) is None);
        assert(extended(level, e, more, registry) == Ok::<(ExprView, Seq<TokenView>), Seq<char>>(
            (e, more),
        ));
        if rest.len() == 0 {
            assert(rest + more =~= more);
        }
        match tokens[0] {
            TokenView::LParen => {
                let (x, after) = parsed(CONCATENATION as int, inner, registry)->Ok_0;
                law_parse_consumes(CONCATENATION as int, inner, registry);
                assert(inner.last() == tokens.last());
                lemma_parsed_before(CONCATENATION as int, inner, more, registry);
                assert((after + more)[0] == after[0]);
                assert((after + more).skip(1) =~= after.skip(1) + more);
            },
            TokenView::Minus => {
                law_parse_consumes(PRIMARY as int, inner, registry);
                assert(inner.last() == tokens.last());
                lemma_parsed_before(PRIMARY as int, inner, more, registry);
                let (x, after) = parsed(PRIMARY as int, inner, registry)->Ok_0;
                assert(extended(level, x, more, registry) == Ok::<
                    (ExprView, Seq<TokenView>),
                    Seq<char>,
                >((x, more)));
            },
            TokenView::Plus => {
                law_parse_consumes(PRIMARY as int, inner, registry);
                assert(inner.last() == tokens.last());
                lemma_parsed_before(PRIMARY as int, inner, more, registry);
            },
            _ => {},
        }
    }
}

/// `lemma_parsed_before` for what follows an expression.
proof fn lemma_extended_before(
    level: int,
    lhs: ExprView,
    tokens: Seq<TokenView>,
    more: Seq<TokenView>,
    registry: Seq<UnitDefView>,
)
    requires
        CONCATENATION <= level < PRIMARY,
        tokens.len() > 0,
        !(tokens.last() is Space),
        extended(level, lhs, tokens, registry) matches Ok((e, rest)) && (rest.len() > 0 || (stops(
            operand_level(level),
            more,
        ) && (level <= CONVERSION ==> ends_target(more)))),
    ensures
        extended(level, lhs, tokens + more, registry) == (match extended(
            level,
            lhs,
            tokens,
            registry,
        ) {
            Ok((e, rest)) => continued(level, e, rest, more, registry),
            Err(e) => Err(e),
        }),
    decreases tokens.len(), PRIMARY + 1,
{
    let all = tokens + more;
    let (e, rest) = extended(level, lhs, tokens, registry)->Ok_0;
    lemma_joint_before(level, tokens, more);
    if let Some(joint) = joint_at(level, tokens) {
        let k = joint.tokens as int;
        let behind = tokens.skip(k);
        assert(all.skip(k) =~= behind + more);
        match joint.operator {
            Operator::Convert(rounds) => {
                let (target, left) = target_at(behind, registry, rounds)->Ok_0;
                lemma_target_at(behind, registry, rounds);
                let x = ExprView::To(Box::new(lhs), target);
                lemma_extended_consumes(level, x, left, registry);
                assert(left.len() < tokens.len());
                lemma_target_before(behind, more, registry, rounds);
                assert((left + more).len() < all.len());
                if left.len() > 0 {
                    lemma_end_has_last(left, behind);
                    assert(behind.last() == tokens.last());
                    lemma_extended_before(level, x, left, more, registry);
                } else {
                    assert(left + more =~= more);
                    assert(joint_at(level, left) is None);
                    assert(e == x && rest.len() == 0);
                }
            },
            operator => {
                let operand = joint.operand as int;
                let (rhs, left) = parsed(operand, behind, registry)->Ok_0;
                law_parse_consumes(operand, behind, registry);
                let x = joined(operator, lhs, rhs);
                lemma_extended_consumes(level, x, left, registry);
                assert(left.len() < tokens.len());
                assert(behind.last() == tokens.last());
                assert(operand_level(level) <= operand <= PRIMARY);
                lemma_parsed_before(operand, behind, more, registry);
                assert((left + more).len() < all.len());
                if left.len() > 0 {
                    lemma_end_has_last(left, behind);
                    lemma_extended_before(level, x, left, more, registry);
                } else {
                    assert(left + more =~= more);
                    assert(joint_at(operand, more) is None);
                    assert(extended(operand, rhs, more, registry) == Ok::<
                        (ExprView, Seq<TokenView>),
                        Seq<char>,
                    >((rhs, more)));
                    assert(joint_at(level, left) is None);
                    assert(e == x && rest.len() == 0);
                }
            },
        }
    }
}

/// A row of a level is a row of each looser level.
proof fn lemma_looser_row(
    level: int,
    looser: int,
    tokens: Seq<TokenView>,
    e: ExprView,
    registry: Seq<UnitDefView>,
)
    requires
        CONCATENATION <= looser <= level <= PRIMARY,
        is_row(level, tokens, e, registry),
    ensures
        is_row(looser, tokens, e, registry),
    decreases level - looser,
{
    if looser < level {
        lemma_looser_row(level, looser + 1, tokens, e, registry);
        let none = Seq::<TokenView>::empty();
        assert(joint_at(looser, none) is None);
        assert(extended(looser, e, none, registry) == Ok::<
            (ExprView, Seq<TokenView>),
            Seq<char>,
        >((e, none)));
    }
}

/// A row of `level`, an operator that goes on at `level`, and a row of its operand's level
/// make a row.
proof fn lemma_joined_rows(
    level: int,
    a: Seq<TokenView>,
    x: ExprView,
    sign: Seq<TokenView>,
    b: Seq<TokenView>,
    y: ExprView,
    registry: Seq<UnitDefView>,
)
    requires
        CONCATENATION <= level < PRIMARY,
        is_row(level, a, x, registry),
        joint_at(level, sign + b) is Some,
        !(joint_at(level, sign + b)->0.operator is Convert),
        joint_at(level, sign + b)->0.tokens == sign.len(),
        is_row(joint_at(level, sign + b)->0.operand as int, b, y, registry),
        stops(level + 1, sign + b),
        level <= CONVERSION ==> ends_target(sign + b),
    ensures
        is_row(
            level,
            a + sign + b,
            joined(joint_at(level, sign + b)->0.operator, x, y),
            registry,
        ),
{
    let more = sign + b;
    let joint = joint_at(level, more)->0;
    let e = joined(joint.operator, x, y);
    let none = Seq::<TokenView>::empty();
    lemma_parsed_before(level, a, more, registry);
    assert(a + more =~= a + sign + b);
    assert(more.skip(sign.len() as int) =~= b);
    assert(joint_at(level, none) is None);
    assert(extended(level, e, none, registry) == Ok::<(ExprView, Seq<TokenView>), Seq<char>>(
        (e, none),
    ));
    assert((a + sign + b).last() == b.last());
}

/// A sign of a sum behind a row, and a product behind it.
proof fn lemma_sum_row(
    a: Seq<TokenView>,
    x: ExprView,
    sign: TokenView,
    b: Seq<TokenView>,
    y: ExprView,
    registry: Seq<UnitDefView>,
)
    requires
        is_row(CONVERSION as int, a, x, registry),
        is_row(PRODUCT as int, b, y, registry),
        sign is Plus || sign is Minus,
    ensures
        is_row(
            CONVERSION as int,
            a + seq![sign] + b,
            if sign is Plus {
                ExprView::Add(Box::new(x), Box::new(y))
            } else {
                ExprView::Sub(Box::new(x), Box::new(y))
            },
            registry,
        ),
{
    let more = seq![sign] + b;
    assert(more[0] == sign);
    let all = a + seq![sign] + b;
    let none = Seq::<TokenView>::empty();
    let (lhs, behind) = parsed(SUM as int, a, registry)->Ok_0;
    law_parse_consumes(SUM as int, a, registry);
    if behind.len() == 0 {
        assert(joint_at(CONVERSION as int, behind) is None);
        assert(behind =~= none);
        assert(extended(CONVERSION as int, lhs, none, registry) == Ok::<
            (ExprView, Seq<TokenView>),
            Seq<char>,
        >((lhs, none)));
        lemma_joined_rows(SUM as int, a, x, seq![sign], b, y, registry);
        lemma_looser_row(
            SUM as int,
            CONVERSION as int,
            all,
            joined(joint_at(SUM as int, more)->0.operator, x, y),
            registry,
        );
    } else {
        lemma_end_has_last(behind, a);
        lemma_parsed_before(SUM as int, a, more, registry);
        lemma_extended_before(CONVERSION as int, lhs, behind, more, registry);
        assert(a + more =~= all);
        assert((behind + more).len() < all.len());
        assert(more.skip(1) =~= b);
        let e = joined(joint_at(CONVERSION as int, more)->0.operator, x, y);
        assert(joint_at(CONVERSION as int, none) is None);
        assert(extended(CONVERSION as int, e, none, registry) == Ok::<
            (ExprView, Seq<TokenView>),
            Seq<char>,
        >((e, none)));
        assert(all.last() == b.last());
    }
}

/// Sums and differences: behind whatever stands before it, a sign takes the product that
/// follows. So products bind tighter, `8 - 2 - 2` takes away from the left, and a sum goes
/// on behind a conversion.
pub proof fn law_sum_of_products(
    a: Seq<TokenView>,
    x: ExprView,
    b: Seq<TokenView>,
    y: ExprView,
    registry: Seq<UnitDefView>,
)
    requires
        is_row(CONVERSION as int, a, x, registry),
        is_row(PRODUCT as int, b, y, registry),
    ensures
        is_row(
            CONVERSION as int,
            a + seq![TokenView::Plus] + b,
            ExprView::Add(Box::new(x), Box::new(y)),
            registry,
        ),
        is_row(
            CONVERSION as int,
            a + seq![TokenView::Minus] + b,
            ExprView::Sub(Box::new(x), Box::new(y)),
            registry,
        ),
{
    lemma_sum_row(a, x, TokenView::Plus, b, y, registry);
    lemma_sum_row(a, x, TokenView::Minus, b, y, registry);
}

/// Products, quotients and remainders: behind a product, the sign takes the operands side by
/// side that follow. So `8 / 2 / 2` divides from the left, and what stands side by side
/// binds tighter.
pub proof fn law_product_of_applications(
    a: Seq<TokenView>,
    x: ExprView,
    b: Seq<TokenView>,
    y: ExprView,
    registry: Seq<UnitDefView>,
)
    requires
        is_row(PRODUCT as int, a, x, registry),
        is_row(SPACED_APPLICATION as int, b, y, registry),
    ensures
        is_row(
            PRODUCT as int,
            a + seq![TokenView::Multiply] + b,
            ExprView::Mul(Box::new(x), Box::new(y)),
            registry,
        ),
        is_row(
            PRODUCT as int,
            a + seq![TokenView::Divide] + b,
            ExprView::Div(Box::new(x), Box::new(y)),
            registry,
        ),
        is_row(
            PRODUCT as int,
            a + seq![TokenView::Modulo] + b,
            ExprView::Mod(Box::new(x), Box::new(y)),
            registry,
        ),
{
    let times = seq![TokenView::Multiply];
    let over = seq![TokenView::Divide];
    let rem = seq![TokenView::Modulo];
    assert((times + b)[0] is Multiply && (over + b)[0] is Divide && (rem + b)[0] is Modulo);
    lemma_joined_rows(PRODUCT as int, a, x, times, b, y, registry);
    lemma_joined_rows(PRODUCT as int, a, x, over, b, y, registry);
    lemma_joined_rows(PRODUCT as int, a, x, rem, b, y, registry);
}

/// A sign of a sum takes a whole product on its right, and a sign of a product only the
/// operand on its left: `x - y * z` takes away a product.
pub proof fn law_products_bind_tighter(
    a: Seq<TokenView>,
    x: ExprView,
    b: Seq<TokenView>,
    y: ExprView,
    c: Seq<TokenView>,
    z: ExprView,
    registry: Seq<UnitDefView>,
)
    requires
        is_row(PRODUCT as int, a, x, registry),
        is_row(PRODUCT as int, b, y, registry),
        is_row(SPACED_APPLICATION as int, c, z, registry),
    ensures
        parsed(
            CONCATENATION as int,
            a + seq![TokenView::Minus] + (b + seq![TokenView::Multiply] + c),
            registry,
        ) == Ok::<(ExprView, Seq<TokenView>), Seq<char>>(
            (
                ExprView::Sub(
                    Box::new(x),
                    Box::new(ExprView::Mul(Box::new(y), Box::new(z))),
                ),
                Seq::empty(),
            ),
        ),
        parsed(
            CONCATENATION as int,
            a + seq![TokenView::Plus] + (b + seq![TokenView::Divide] + c),
            registry,
        ) == Ok::<(ExprView, Seq<TokenView>), Seq<char>>(
            (
                ExprView::Add(
                    Box::new(x),
                    Box::new(ExprView::Div(Box::new(y), Box::new(z))),
                ),
                Seq::empty(),
            ),
        ),
        parsed(
            CONCATENATION as int,
            a + seq![TokenView::Minus] + b,
            registry,
        ) == Ok::<(ExprView, Seq<TokenView>), Seq<char>>(
            (ExprView::Sub(Box::new(x), Box::new(y)), Seq::empty()),
        ),
{
    let one = CONCATENATION as int;
    let two = CONVERSION as int;
    let product = b + seq![TokenView::Multiply] + c;
    let quotient = b + seq![TokenView::Divide] + c;
    let yz = ExprView::Mul(Box::new(y), Box::new(z));
    let y_z = ExprView::Div(Box::new(y), Box::new(z));
    lemma_looser_row(PRODUCT as int, two, a, x, registry);
    law_product_of_applications(b, y, c, z, registry);
    law_sum_of_products(a, x, product, yz, registry);
    law_sum_of_products(a, x, quotient, y_z, registry);
    law_sum_of_products(a, x, b, y, registry);
    lemma_looser_row(
        two,
        one,
        a + seq![TokenView::Minus] + product,
        ExprView::Sub(Box::new(x), Box::new(yz)),
        registry,
    );
    lemma_looser_row(
        two,
        one,
        a + seq![TokenView::Plus] + quotient,
        ExprView::Add(Box::new(x), Box::new(y_z)),
        registry,
    );
    lemma_looser_row(
        two,
        one,
        a + seq![TokenView::Minus] + b,
        ExprView::Sub(Box::new(x), Box::new(y)),
        registry,
    );
}

/// Operands side by side: behind a space the left is applied to what follows without one,
/// so what no space parts binds tighter, and several are applied from the left.
pub proof fn law_spaced_application(
    a: Seq<TokenView>,
    x: ExprView,
    b: Seq<TokenView>,
    y: ExprView,
    registry: Seq<UnitDefView>,
)
    requires
        is_row(SPACED_APPLICATION as int, a, x, registry),
        is_row(TIGHT_APPLICATION as int, b, y, registry),
        !(b[0] is String),
    ensures
        is_row(
            SPACED_APPLICATION as int,
            a + seq![TokenView::Space] + b,
            ExprView::Apply(Box::new(x), Box::new(y)),
            registry,
        ),
{
    let space = seq![TokenView::Space];
    assert((space + b)[0] is Space && (space + b)[1] == b[0]);
    lemma_joined_rows(SPACED_APPLICATION as int, a, x, space, b, y, registry);
}

/// Operands that no space parts: the left is applied to the next single operand.
pub proof fn law_tight_application(
    a: Seq<TokenView>,
    x: ExprView,
    b: Seq<TokenView>,
    y: ExprView,
    registry: Seq<UnitDefView>,
)
    requires
        is_row(TIGHT_APPLICATION as int, a, x, registry),
        is_row(PRIMARY as int, b, y, registry),
        b[0] is Num || b[0] is Duration || b[0] is Ident || b[0] is Now || b[0] is Underscore
            || b[0] is LParen,
    ensures
        is_row(
            TIGHT_APPLICATION as int,
            a + b,
            ExprView::Apply(Box::new(x), Box::new(y)),
            registry,
        ),
{
    let none = Seq::<TokenView>::empty();
    assert(none + b =~= b);
    lemma_joined_rows(TIGHT_APPLICATION as int, a, x, none, b, y, registry);
    assert(a + none + b =~= a + b);
}

/// A conversion takes all that stands before it: sums, products and other conversions.
pub proof fn law_conversion_takes_all_before(
    a: Seq<TokenView>,
    x: ExprView,
    t: Seq<TokenView>,
    target: TargetView,
    rounds: bool,
    registry: Seq<UnitDefView>,
)
    requires
        is_row(CONVERSION as int, a, x, registry),
        target_at(t, registry, rounds) == Ok::<(TargetView, Seq<TokenView>), Seq<char>>(
            (target, Seq::empty()),
        ),
        !(t.last() is Space),
    ensures
        is_row(
            CONVERSION as int,
            a + seq![
                if rounds {
                    TokenView::To
                } else {
                    TokenView::As
                },
            ] + t,
            ExprView::To(Box::new(x), target),
            registry,
        ),
{
    let word = if rounds {
        TokenView::To
    } else {
        TokenView::As
    };
    let more = seq![word] + t;
    let none = Seq::<TokenView>::empty();
    let two = CONVERSION as int;
    lemma_target_at(t, registry, rounds);
    assert(more[0] == word);
    lemma_parsed_before(two, a, more, registry);
    assert(a + more =~= a + seq![word] + t);
    assert(more.skip(1) =~= t);
    let e = ExprView::To(Box::new(x), target);
    assert(joint_at(two, none) is None);
    assert(extended(two, e, none, registry) == Ok::<(ExprView, Seq<TokenView>), Seq<char>>(
        (e, none),
    ));
    assert((a + seq![word] + t).last() == t.last());
}

/// A text is appended to all that stands before it, conversions included.
pub proof fn law_text_is_appended_to_all_before(
    a: Seq<TokenView>,
    x: ExprView,
    text: Seq<char>,
    registry: Seq<UnitDefView>,
)
    requires
        is_row(CONCATENATION as int, a, x, registry),
    ensures
        is_row(
            CONCATENATION as int,
            a + seq![TokenView::String(text)],
            ExprView::Add(Box::new(x), Box::new(ExprView::String(text))),
            registry,
        ),
{
    let none = Seq::<TokenView>::empty();
    let b = seq![TokenView::String(text)];
    law_operands(0real, text, registry);
    assert(none + b =~= b);
    lemma_joined_rows(
        CONCATENATION as int,
        a,
        x,
        none,
        b,
        ExprView::String(text),
        registry,
    );
    assert(a + none + b =~= a + b);
}

/// What stands in parentheses is one operand.
pub proof fn law_parentheses(a: Seq<TokenView>, x: ExprView, registry: Seq<UnitDefView>)
    requires
        is_row(CONCATENATION as int, a, x, registry),
    ensures
        is_row(
            PRIMARY as int,
            seq![TokenView::LParen] + a + seq![TokenView::RParen],
            x,
            registry,
        ),
{
    let close = seq![TokenView::RParen];
    let all = seq![TokenView::LParen] + a + close;
    let none = Seq::<TokenView>::empty();
    assert(all.skip(1) =~= a + close);
    assert(close.skip(1) =~= none);
    lemma_parsed_before(CONCATENATION as int, a, close, registry);
    assert(joint_at(CONCATENATION as int, close) is None);
    assert(extended(CONCATENATION as int, x, close, registry) == Ok::<
        (ExprView, Seq<TokenView>),
        Seq<char>,
    >((x, close)));
}

/// A sign before an operand belongs to that operand.
pub proof fn law_signed_operand(b: Seq<TokenView>, y: ExprView, registry: Seq<UnitDefView>)
    requires
        is_row(PRIMARY as int, b, y, registry),
    ensures
        is_row(
            PRIMARY as int,
            seq![TokenView::Minus] + b,
            ExprView::UnaryMinus(Box::new(y)),
            registry,
        ),
        is_row(PRIMARY as int, seq![TokenView::Plus] + b, y, registry),
{
    assert((seq![TokenView::Minus] + b).skip(1) =~= b);
    assert((seq![TokenView::Plus] + b).skip(1) =~= b);
}

/// A number, a duration, a text, a word, the time of day and the last value are operands.
pub proof fn law_operands(x: real, s: Seq<char>, registry: Seq<UnitDefView>)
    ensures
        is_row(PRIMARY as int, seq![TokenView::Num(x)], ExprView::Number(x), registry),
        is_row(PRIMARY as int, seq![TokenView::Duration(x)], ExprView::Duration(x), registry),
        is_row(PRIMARY as int, seq![TokenView::String(s)], ExprView::String(s), registry),
        is_row(PRIMARY as int, seq![TokenView::Ident(s)], ExprView::Ident(s), registry),
        is_row(PRIMARY as int, seq![TokenView::Now], ExprView::Now, registry),
        is_row(PRIMARY as int, seq![TokenView::Underscore], ExprView::Underscore, registry),
{
    let none = Seq::<TokenView>::empty();
    assert(seq![TokenView::Num(x)].skip(1) =~= none);
    assert(seq![TokenView::Duration(x)].skip(1) =~= none);
    assert(seq![TokenView::String(s)].skip(1) =~= none);
    assert(seq![TokenView::Ident(s)].skip(1) =~= none);
    assert(seq![TokenView::Now].skip(1) =~= none);
    assert(seq![TokenView::Underscore].skip(1) =~= none);
}

/// A row of a level is a row of each looser level: an operand is a product, a product is a
/// sum, and so on.
pub proof fn law_tighter_rows_are_looser(
    level: int,
    looser: int,
    tokens: Seq<TokenView>,
    e: ExprView,
    registry: Seq<UnitDefView>,
)
    requires
        CONCATENATION <= looser <= level <= PRIMARY,
        is_row(level, tokens, e, registry),
    ensures
        is_row(looser, tokens, e, registry),
{
    lemma_looser_row(level, looser, tokens, e, registry);
}

/// The units that words name, one behind the other, are the target of a conversion.
pub proof fn law_target_of_units(
    words: Seq<Seq<char>>,
    units: Seq<UnitView>,
    registry: Seq<UnitDefView>,
    rounds: bool,
)
    requires
        words.len() > 0,
        units.len() == words.len(),
        forall|i: int|
            0 <= i < words.len() ==> find_unit(#[trigger] words[i], registry) == Some(units[i]),
    ensures
        target_at(word_row(words), registry, rounds) == Ok::<
            (TargetView, Seq<TokenView>),
            Seq<char>,
        >((TargetView { dp: None, units: Some(units), rounds }, Seq::empty())),
{
    let row = word_row(words);
    lemma_word_row(words, units, registry);
    assert(row[0] == TokenView::Ident(words[0]));
    lemma_space_run_is(row, 0);
    assert(row.skip(0) =~= row);
}

/// Words with spaces between them.
pub open spec fn word_row(words: Seq<Seq<char>>) -> Seq<TokenView>
    decreases words.len(),
{
    if words.len() == 0 {
        Seq::empty()
    } else if words.len() == 1 {
        seq![TokenView::Ident(words[0])]
    } else {
        seq![TokenView::Ident(words[0]), TokenView::Space] + word_row(words.skip(1))
    }
}

/// Words that name units are those units.
proof fn lemma_word_row(
    words: Seq<Seq<char>>,
    units: Seq<UnitView>,
    registry: Seq<UnitDefView>,
)
    requires
        units.len() == words.len(),
        forall|i: int|
            0 <= i < words.len() ==> find_unit(#[trigger] words[i], registry) == Some(units[i]),
    ensures
        units_at(word_row(words), registry) == (units, Seq::<TokenView>::empty()),
        words.len() > 0 ==> word_row(words).len() > 0 && word_row(words)[0] == TokenView::Ident(
            words[0],
        ),
    decreases words.len(),
{
    reveal_with_fuel(units_at, 3);
    let row = word_row(words);
    let none = Seq::<TokenView>::empty();
    if words.len() == 0 {
        assert(units =~= Seq::<UnitView>::empty());
        assert(units_at(row, registry).0 =~= units);
    } else {
        assert(find_unit(words[0], registry) == Some(units[0]));
        if words.len() == 1 {
            assert(row.skip(1) =~= none);
            assert(seq![units[0]] + Seq::<UnitView>::empty() =~= units);
        } else {
            let rest = words.skip(1);
            assert forall|i: int| 0 <= i < rest.len() implies find_unit(
                #[trigger] rest[i],
                registry,
            ) == Some(units.skip(1)[i]) by {
                assert(rest[i] == words[i + 1]);
            }
            lemma_word_row(rest, units.skip(1), registry);
            assert(row.skip(1).skip(1) =~= word_row(rest));
            assert(seq![units[0]] + units.skip(1) =~= units);
        }
    }
}

/// A number and the word `dp` or `decimal`, with or without a space between them, ask for
/// that many decimals: for as many as its whole part says, or for none where that is out of
/// bounds.
pub proof fn law_target_of_decimals(
    x: real,
    word: Seq<char>,
    registry: Seq<UnitDefView>,
    rounds: bool,
)
    requires
        same_word(word, "dp"@) || same_word(word, "decimal"@),
    ensures
        ({
            let n = if i32::MIN <= truncated(x) <= i32::MAX {
                truncated(x)
            } else {
                0
            };
            let asked = Ok::<(TargetView, Seq<TokenView>), Seq<char>>(
                (TargetView { dp: Some(n), units: None, rounds }, Seq::empty()),
            );
            let num = TokenView::Num(x);
            let ident = TokenView::Ident(word);
            target_at(seq![num, ident], registry, rounds) == asked && target_at(
                seq![num, TokenView::Space, ident],
                registry,
                rounds,
            ) == asked
        }),
{
    let none = Seq::<TokenView>::empty();
    let num = TokenView::Num(x);
    let ident = TokenView::Ident(word);
    let near = seq![num, ident];
    let far = seq![num, TokenView::Space, ident];
    lemma_space_run_is(near, 0);
    lemma_space_run_is(far, 0);
    assert(near.skip(0) =~= near && far.skip(0) =~= far);
    assert(near.skip(2) =~= none && far.skip(3) =~= none);
}

/// Where an operand is missing, at whatever level, that is said.
pub proof fn law_missing_operand(level: int, registry: Seq<UnitDefView>)
    requires
        CONCATENATION <= level <= PRIMARY,
    ensures
        parsed(level, Seq::empty(), registry) == Err::<(ExprView, Seq<TokenView>), Seq<char>>(
            "Unexpected end of expression"@,
        ),
    decreases PRIMARY - level,
{
    if level < PRIMARY {
        law_missing_operand(level + 1, registry);
    }
}

/// No operand starts with a sign of a product, a closing parenthesis, the sign of a
/// definition, a space, or a word that asks for a conversion, and at whatever level one is
/// wanted the token is named.
pub proof fn law_wrong_start(
    level: int,
    t: TokenView,
    name: Seq<char>,
    rest: Seq<TokenView>,
    registry: Seq<UnitDefView>,
)
    requires
        CONCATENATION <= level <= PRIMARY,
        t is Multiply && name == "Multiply"@ || t is Divide && name == "Divide"@ || t is Modulo
            && name == "Modulo"@ || t is RParen && name == "RParen"@ || t is Assign && name
            == "Assign"@ || t is Space && name == "Space"@ || (t is To || t is As) && name
            == "To"@,
    ensures
        parsed(level, seq![t] + rest, registry) == Err::<(ExprView, Seq<TokenView>), Seq<char>>(
            "Unexpected syntax token: "@ + name,
        ),
    decreases PRIMARY - level,
{
    assert((seq![t] + rest)[0] == t);
    if level < PRIMARY {
        law_wrong_start(level + 1, t, name, rest, registry);
    }
}

/// A parenthesis that is not closed behind its expression is complained of.
pub proof fn law_unclosed_parenthesis(
    a: Seq<TokenView>,
    x: ExprView,
    rest: Seq<TokenView>,
    registry: Seq<UnitDefView>,
)
    requires
        parsed(CONCATENATION as int, a, registry) == Ok::<(ExprView, Seq<TokenView>), Seq<char>>(
            (x, rest),
        ),
        rest.len() > 0 ==> !(rest[0] is RParen),
    ensures
        parsed(PRIMARY as int, seq![TokenView::LParen] + a, registry) == Err::<
            (ExprView, Seq<TokenView>),
            Seq<char>,
        >("Missing closing parenthesis"@),
{
    let all = seq![TokenView::LParen] + a;
    assert(all[0] is LParen);
    assert(all.skip(1) =~= a);
}

/// A conversion needs a target: decimals, or the name of a unit.
pub proof fn law_wrong_target(
    t: TokenView,
    rest: Seq<TokenView>,
    registry: Seq<UnitDefView>,
    rounds: bool,
)
    requires
        !(t is Space),
        !(t is Num),
        t is Ident ==> find_unit(t->Ident_0, registry) is None,
    ensures
        target_at(Seq::empty(), registry, rounds) == Err::<
            (TargetView, Seq<TokenView>),
            Seq<char>,
        >("Missing target after 'to'"@),
        target_at(seq![t] + rest, registry, rounds) == Err::<
            (TargetView, Seq<TokenView>),
            Seq<char>,
        >("Invalid conversion target"@),
{
    let none = Seq::<TokenView>::empty();
    let all = seq![t] + rest;
    lemma_space_run_is(none, 0);
    lemma_space_run_is(all, 0);
    assert(none.skip(0) =~= none && all.skip(0) =~= all);
    assert(all[0] == t);
}

/// A text behind a sum, with or without a space between them, is appended to the whole sum,
/// and one without a space to conversions and texts too. It is a single operand: what
/// follows it goes on behind it.
pub proof fn law_text_goes_on_behind(
    a: Seq<TokenView>,
    x: ExprView,
    text: Seq<char>,
    rest: Seq<TokenView>,
    registry: Seq<UnitDefView>,
)
    ensures
        ({
            let all = ExprView::Add(Box::new(x), Box::new(ExprView::String(text)));
            let more = seq![TokenView::String(text)] + rest;
            let one = CONCATENATION as int;
            &&& is_row(one, a, x, registry) ==> parsed(one, a + more, registry) == extended(
                one,
                all,
                rest,
                registry,
            )
            &&& is_row(SUM as int, a, x, registry) ==> parsed(
                one,
                a + seq![TokenView::Space] + more,
                registry,
            ) == extended(one, all, rest, registry)
        }),
{
    let near = seq![TokenView::String(text)] + rest;
    let far = seq![TokenView::Space] + near;
    let one = CONCATENATION as int;
    let two = CONVERSION as int;
    let three = SUM as int;
    assert(near[0] is String);
    assert(far[0] is Space && far[1] is String);
    assert(near.skip(0) =~= near);
    assert(far.skip(1) =~= near);
    assert(near.skip(1) =~= rest);
    assert(parsed(PRIMARY as int, near, registry) == Ok::<(ExprView, Seq<TokenView>), Seq<char>>(
        (ExprView::String(text), rest),
    ));
    let e = ExprView::Add(Box::new(x), Box::new(ExprView::String(text)));
    reveal_with_fuel(extended, 2);
    assert(extended(one, x, near, registry) == extended(one, e, rest, registry));
    assert(extended(one, x, far, registry) == extended(one, e, rest, registry));
    if is_row(one, a, x, registry) {
        lemma_parsed_before(one, a, near, registry);
    }
    if is_row(three, a, x, registry) {
        let all = a + far;
        lemma_parsed_before(three, a, far, registry);
        assert(a + seq![TokenView::Space] + near =~= all);
        assert(joint_at(three, far) is None);
        assert(extended(three, x, far, registry) == Ok::<(ExprView, Seq<TokenView>), Seq<char>>(
            (x, far),
        ));
        assert(parsed(three, all, registry) == Ok::<(ExprView, Seq<TokenView>), Seq<char>>(
            (x, far),
        ));
        assert(joint_at(two, far) is None);
        assert(extended(two, x, far, registry) == Ok::<(ExprView, Seq<TokenView>), Seq<char>>(
            (x, far),
        ));
        assert(far.len() < all.len());
        assert(parsed(two, all, registry) == Ok::<(ExprView, Seq<TokenView>), Seq<char>>(
            (x, far),
        ));
        assert(parsed(one, all, registry) == extended(one, x, far, registry));
    }
}

/// The word that asks for a conversion may stand behind a space, and asks for the same
/// there.
pub proof fn law_spaced_conversion(
    x: ExprView,
    t: Seq<TokenView>,
    target: TargetView,
    rounds: bool,
    registry: Seq<UnitDefView>,
)
    requires
        target_at(t, registry, rounds) == Ok::<(TargetView, Seq<TokenView>), Seq<char>>(
            (target, Seq::empty()),
        ),
    ensures
        ({
            let word = if rounds {
                TokenView::To
            } else {
                TokenView::As
            };
            extended(CONVERSION as int, x, seq![TokenView::Space, word] + t, registry) == Ok::<
                (ExprView, Seq<TokenView>),
                Seq<char>,
            >((ExprView::To(Box::new(x), target), Seq::empty()))
        }),
{
    let word = if rounds {
        TokenView::To
    } else {
        TokenView::As
    };
    let all = seq![TokenView::Space, word] + t;
    let none = Seq::<TokenView>::empty();
    assert(all[0] is Space && all[1] == word);
    assert(all.skip(2) =~= t);
    assert(joint_at(CONVERSION as int, none) is None);
    let e = ExprView::To(Box::new(x), target);
    assert(extended(CONVERSION as int, e, none, registry) == Ok::<
        (ExprView, Seq<TokenView>),
        Seq<char>,
    >((e, none)));
}

} // verus!
