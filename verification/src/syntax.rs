//! The things that a line of input is made of, and their mathematical models.

use crate::number::Rational;
use vstd::prelude::*;

verus! {

/// A unit of time: its name, its length in seconds, and its other names.
#[derive(Debug)]
pub struct UnitDef {
    pub primary_name: String,
    pub factor: Rational,
    pub aliases: Vec<String>,
}

/// A unit that a duration is written in.
#[derive(Debug)]
pub struct FormatUnit {
    pub name: String,
    pub factor: Rational,
}

/// How a value is to be written: with how many decimals, and in which units.
///
/// `rounds` says that the units were asked for with the word `to`, which rounds where
/// `as` converts.
#[derive(Debug)]
pub struct ConversionTarget {
    pub dp: Option<i32>,
    pub units: Option<Vec<FormatUnit>>,
    pub rounds: bool,
}

/// A word, sign or literal of the input.
#[derive(Debug)]
pub enum Token {
    Num(Rational),
    Ident(String),
    String(String),
    Plus,
    Minus,
    Multiply,
    Divide,
    Modulo,
    Underscore,
    LParen,
    RParen,
    To,
    As,
    Now,
    Assign,
    Duration(Rational),
    Space,
}

/// An expression.
#[derive(Debug)]
pub enum Expr {
    Number(Rational),
    Duration(Rational),
    String(String),
    Ident(String),
    Now,
    Underscore,
    UnaryMinus(Box<Expr>),
    Add(Box<Expr>, Box<Expr>),
    Sub(Box<Expr>, Box<Expr>),
    Mul(Box<Expr>, Box<Expr>),
    Div(Box<Expr>, Box<Expr>),
    Mod(Box<Expr>, Box<Expr>),
    Apply(Box<Expr>, Box<Expr>),
    To(Box<Expr>, ConversionTarget),
}

/// A function: its names, its parameters and its body.
#[derive(Debug)]
pub struct FuncDef {
    pub name: String,
    pub aliases: Vec<String>,
    pub args: Vec<String>,
    pub body: Expr,
}

/// What an expression evaluates to. A function holds the arguments that it has so far.
#[derive(Debug)]
pub enum Value {
    Number(Rational),
    Duration(Rational),
    String(String),
    Function(FuncDef, Vec<Value>),
    Formatted(Box<Value>, ConversionTarget),
}

/// The model of a `UnitDef`.
#[verifier::ext_equal]
pub struct UnitDefView {
    pub primary_name: Seq<char>,
    pub factor: real,
    pub aliases: Seq<Seq<char>>,
}

/// The model of a `FormatUnit`.
#[verifier::ext_equal]
pub struct UnitView {
    pub name: Seq<char>,
    pub factor: real,
}

/// The model of a `ConversionTarget`.
#[verifier::ext_equal]
pub struct TargetView {
    pub dp: Option<int>,
    pub units: Option<Seq<UnitView>>,
    pub rounds: bool,
}

/// The model of a `Token`.
#[verifier::ext_equal]
pub enum TokenView {
    Num(real),
    Ident(Seq<char>),
    String(Seq<char>),
    Plus,
    Minus,
    Multiply,
    Divide,
    Modulo,
    Underscore,
    LParen,
    RParen,
    To,
    As,
    Now,
    Assign,
    Duration(real),
    Space,
}

/// The model of an `Expr`.
#[verifier::ext_equal]
pub enum ExprView {
    Number(real),
    Duration(real),
    String(Seq<char>),
    Ident(Seq<char>),
    Now,
    Underscore,
    UnaryMinus(Box<ExprView>),
    Add(Box<ExprView>, Box<ExprView>),
    Sub(Box<ExprView>, Box<ExprView>),
    Mul(Box<ExprView>, Box<ExprView>),
    Div(Box<ExprView>, Box<ExprView>),
    Mod(Box<ExprView>, Box<ExprView>),
    Apply(Box<ExprView>, Box<ExprView>),
    To(Box<ExprView>, TargetView),
}

/// The model of a `FuncDef`.
#[verifier::ext_equal]
pub struct FuncView {
    pub name: Seq<char>,
    pub aliases: Seq<Seq<char>>,
    pub args: Seq<Seq<char>>,
    pub body: ExprView,
}

/// The model of a `Value`.
#[verifier::ext_equal]
pub enum ValueView {
    Number(real),
    Duration(real),
    String(Seq<char>),
    Function(FuncView, Seq<ValueView>),
    Formatted(Box<ValueView>, TargetView),
}

/// The texts that strings hold.
pub open spec fn texts(v: Seq<String>) -> Seq<Seq<char>> {
    v.map_values(|s: String| s@)
}

impl View for UnitDef {
    type V = UnitDefView;

    open spec fn view(&self) -> UnitDefView {
        UnitDefView {
            primary_name: self.primary_name@,
            factor: self.factor@,
            aliases: texts(self.aliases@),
        }
    }
}

impl View for FormatUnit {
    type V = UnitView;

    open spec fn view(&self) -> UnitView {
        UnitView { name: self.name@, factor: self.factor@ }
    }
}

/// The models of units.
pub open spec fn units_view(v: Seq<FormatUnit>) -> Seq<UnitView> {
    v.map_values(|u: FormatUnit| u@)
}

/// The models of unit definitions.
pub open spec fn defs_view(v: Seq<UnitDef>) -> Seq<UnitDefView> {
    v.map_values(|u: UnitDef| u@)
}

impl View for ConversionTarget {
    type V = TargetView;

    open spec fn view(&self) -> TargetView {
        TargetView {
            dp: match self.dp {
                Some(n) => Some(n as int),
                None => None,
            },
            units: match self.units {
                Some(v) => Some(units_view(v@)),
                None => None,
            },
            rounds: self.rounds,
        }
    }
}

impl View for Token {
    type V = TokenView;

    open spec fn view(&self) -> TokenView {
        match *self {
            Token::Num(x) => TokenView::Num(x@),
            Token::Ident(s) => TokenView::Ident(s@),
            Token::String(s) => TokenView::String(s@),
            Token::Plus => TokenView::Plus,
            Token::Minus => TokenView::Minus,
            Token::Multiply => TokenView::Multiply,
            Token::Divide => TokenView::Divide,
            Token::Modulo => TokenView::Modulo,
            Token::Underscore => TokenView::Underscore,
            Token::LParen => TokenView::LParen,
            Token::RParen => TokenView::RParen,
            Token::To => TokenView::To,
            Token::As => TokenView::As,
            Token::Now => TokenView::Now,
            Token::Assign => TokenView::Assign,
            Token::Duration(x) => TokenView::Duration(x@),
            Token::Space => TokenView::Space,
        }
    }
}

/// The models of tokens.
pub open spec fn tokens_view(v: Seq<Token>) -> Seq<TokenView> {
    v.map_values(|t: Token| t@)
}

impl View for Expr {
    type V = ExprView;

    open spec fn view(&self) -> ExprView
        decreases self,
    {
        match *self {
            Expr::Number(x) => ExprView::Number(x@),
            Expr::Duration(x) => ExprView::Duration(x@),
            Expr::String(s) => ExprView::String(s@),
            Expr::Ident(s) => ExprView::Ident(s@),
            Expr::Now => ExprView::Now,
            Expr::Underscore => ExprView::Underscore,
            Expr::UnaryMinus(a) => ExprView::UnaryMinus(Box::new((*a).view())),
            Expr::Add(a, b) => ExprView::Add(Box::new((*a).view()), Box::new((*b).view())),
            Expr::Sub(a, b) => ExprView::Sub(Box::new((*a).view()), Box::new((*b).view())),
            Expr::Mul(a, b) => ExprView::Mul(Box::new((*a).view()), Box::new((*b).view())),
            Expr::Div(a, b) => ExprView::Div(Box::new((*a).view()), Box::new((*b).view())),
            Expr::Mod(a, b) => ExprView::Mod(Box::new((*a).view()), Box::new((*b).view())),
            Expr::Apply(a, b) => ExprView::Apply(Box::new((*a).view()), Box::new((*b).view())),
            Expr::To(a, target) => ExprView::To(Box::new((*a).view()), target@),
        }
    }
}

impl View for FuncDef {
    type V = FuncView;

    open spec fn view(&self) -> FuncView {
        FuncView {
            name: self.name@,
            aliases: texts(self.aliases@),
            args: texts(self.args@),
            body: self.body@,
        }
    }
}

/// The models of functions.
pub open spec fn funcs_view(v: Seq<FuncDef>) -> Seq<FuncView> {
    v.map_values(|f: FuncDef| f@)
}

impl View for Value {
    type V = ValueView;

    open spec fn view(&self) -> ValueView
        decreases self,
    {
        match *self {
            Value::Number(x) => ValueView::Number(x@),
            Value::Duration(x) => ValueView::Duration(x@),
            Value::String(s) => ValueView::String(s@),
            Value::Function(f, args) => ValueView::Function(f@, values_view(args@)),
            Value::Formatted(v, target) => ValueView::Formatted(Box::new((*v).view()), target@),
        }
    }
}

/// The models of values.
pub open spec fn values_view(v: Seq<Value>) -> Seq<ValueView>
    decreases v,
{
    if v.len() == 0 {
        Seq::empty()
    } else {
        values_view(v.drop_last()).push(v.last().view())
    }
}

/// A copy of `v`.
pub fn copy_texts(v: &Vec<String>) -> (r: Vec<String>)
    ensures
        texts(r@) == texts(v@),
{
    let mut r: Vec<String> = Vec::new();
    let mut i: usize = 0;
    while i < v.len()
        invariant
            i <= v@.len(),
            texts(r@) == texts(v@).take(i as int),
        decreases v@.len() - i,
    {
        let ghost before = r@;
        r.push(v[i].clone());
        proof {
            assert(texts(r@) =~= texts(before).push(v@[i as int]@));
            assert(texts(r@) =~= texts(v@).take(i + 1));
        }
        i = i + 1;
    }
    assert(texts(v@).take(i as int) =~= texts(v@));
    r
}

impl Clone for UnitDef {
    fn clone(&self) -> (r: UnitDef)
        ensures
            r@ == self@,
    {
        UnitDef {
            primary_name: self.primary_name.clone(),
            factor: self.factor.clone(),
            aliases: copy_texts(&self.aliases),
        }
    }
}

impl FormatUnit {
    /// The length of the unit in seconds, and its name.
    pub fn info(&self) -> (r: (&Rational, &str))
        ensures
            r.0@ == self@.factor,
            r.1@ == self@.name,
    {
        (&self.factor, self.name.as_str())
    }
}

impl Clone for FormatUnit {
    fn clone(&self) -> (r: FormatUnit)
        ensures
            r@ == self@,
    {
        FormatUnit { name: self.name.clone(), factor: self.factor.clone() }
    }
}

/// A copy of `v`.
pub fn copy_units(v: &[FormatUnit]) -> (r: Vec<FormatUnit>)
    ensures
        units_view(r@) == units_view(v@),
{
    let mut r: Vec<FormatUnit> = Vec::new();
    let mut i: usize = 0;
    while i < v.len()
        invariant
            i <= v@.len(),
            units_view(r@) == units_view(v@).take(i as int),
        decreases v@.len() - i,
    {
        let ghost before = r@;
        r.push(v[i].clone());
        proof {
            assert(units_view(r@) =~= units_view(before).push(v@[i as int]@));
            assert(units_view(r@) =~= units_view(v@).take(i + 1));
        }
        i = i + 1;
    }
    assert(units_view(v@).take(i as int) =~= units_view(v@));
    r
}

impl Clone for ConversionTarget {
    fn clone(&self) -> (r: ConversionTarget)
        ensures
            r@ == self@,
    {
        ConversionTarget {
            dp: self.dp,
            units: match &self.units {
                Some(v) => Some(copy_units(v.as_slice())),
                None => None,
            },
            rounds: self.rounds,
        }
    }
}

impl Clone for Token {
    fn clone(&self) -> (r: Token)
        ensures
            r@ == self@,
    {
        match self {
            Token::Num(x) => Token::Num(x.clone()),
            Token::Ident(s) => Token::Ident(s.clone()),
            Token::String(s) => Token::String(s.clone()),
            Token::Plus => Token::Plus,
            Token::Minus => Token::Minus,
            Token::Multiply => Token::Multiply,
            Token::Divide => Token::Divide,
            Token::Modulo => Token::Modulo,
            Token::Underscore => Token::Underscore,
            Token::LParen => Token::LParen,
            Token::RParen => Token::RParen,
            Token::To => Token::To,
            Token::As => Token::As,
            Token::Now => Token::Now,
            Token::Assign => Token::Assign,
            Token::Duration(x) => Token::Duration(x.clone()),
            Token::Space => Token::Space,
        }
    }
}

impl Clone for Expr {
    fn clone(&self) -> (r: Expr)
        ensures
            r@ == self@,
        decreases self,
    {
        match self {
            Expr::Number(x) => Expr::Number(x.clone()),
            Expr::Duration(x) => Expr::Duration(x.clone()),
            Expr::String(s) => Expr::String(s.clone()),
            Expr::Ident(s) => Expr::Ident(s.clone()),
            Expr::Now => Expr::Now,
            Expr::Underscore => Expr::Underscore,
            Expr::UnaryMinus(a) => Expr::UnaryMinus(Box::new((**a).clone())),
            Expr::Add(a, b) => Expr::Add(Box::new((**a).clone()), Box::new((**b).clone())),
            Expr::Sub(a, b) => Expr::Sub(Box::new((**a).clone()), Box::new((**b).clone())),
            Expr::Mul(a, b) => Expr::Mul(Box::new((**a).clone()), Box::new((**b).clone())),
            Expr::Div(a, b) => Expr::Div(Box::new((**a).clone()), Box::new((**b).clone())),
            Expr::Mod(a, b) => Expr::Mod(Box::new((**a).clone()), Box::new((**b).clone())),
            Expr::Apply(a, b) => Expr::Apply(Box::new((**a).clone()), Box::new((**b).clone())),
            Expr::To(a, target) => Expr::To(Box::new((**a).clone()), target.clone()),
        }
    }
}

impl Clone for FuncDef {
    fn clone(&self) -> (r: FuncDef)
        ensures
            r@ == self@,
    {
        FuncDef {
            name: self.name.clone(),
            aliases: copy_texts(&self.aliases),
            args: copy_texts(&self.args),
            body: self.body.clone(),
        }
    }
}

impl Clone for Value {
    fn clone(&self) -> (r: Value)
        ensures
            r@ == self@,
        decreases self,
    {
        match self {
            Value::Number(x) => Value::Number(x.clone()),
            Value::Duration(x) => Value::Duration(x.clone()),
            Value::String(s) => Value::String(s.clone()),
            Value::Function(f, args) => {
                let mut copies: Vec<Value> = Vec::new();
                let mut i: usize = 0;
                while i < args.len()
                    invariant
                        i <= args@.len(),
                        *self matches Value::Function(g, a) && a == *args,
                        values_view(copies@) == values_view(args@.take(i as int)),
                    decreases args@.len() - i,
                {
                    let ghost before = copies@;
                    copies.push(args[i].clone());
                    proof {
                        assert(copies@.drop_last() =~= before);
                        assert(args@.take(i + 1).drop_last() =~= args@.take(i as int));
                    }
                    i = i + 1;
                }
                assert(args@.take(i as int) =~= args@);
                Value::Function(f.clone(), copies)
            },
            Value::Formatted(v, target) => {
                Value::Formatted(Box::new((**v).clone()), target.clone())
            },
        }
    }
}

/// The models of values stand in the order of the values.
pub proof fn lemma_values_view(v: Seq<Value>)
    ensures
        values_view(v).len() == v.len(),
        forall|i: int| 0 <= i < v.len() ==> #[trigger] values_view(v)[i] == v[i]@,
    decreases v.len(),
{
    if v.len() > 0 {
        let t = v.drop_last();
        lemma_values_view(t);
        assert(values_view(v) == values_view(t).push(v.last()@));
        assert forall|i: int| 0 <= i < v.len() implies #[trigger] values_view(v)[i] == v[i]@ by {
            if i < t.len() {
                assert(values_view(v)[i] == values_view(t)[i]);
                assert(t[i] == v[i]);
            }
        }
    }
}

} // verus!
