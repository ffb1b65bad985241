//! Conditions over variables.
//!
//! A condition is either a plain `true` / `false` or an expression such as
//! `profile == "release" && os != "windows"`, evaluated with every variable
//! bound to its text. The expression language is that of the `evalexpr`
//! crate, which parses and evaluates it; this module binds the variables,
//! hands the text over and insists on a boolean result. Expressions are made
//! of literals, variables and operators: the functions that `evalexpr` has
//! built in are switched off, since some of them can panic and others do not
//! give the same result on every machine. The power operator `^` is computed
//! by a floating-point routine whose result differs between machines: a text
//! that holds the character `^` is evaluated like any other, but only of a
//! text without it is it said what the evaluation comes to.

use vstd::prelude::*;
use crate::variables::{bindings, Variable};

verus! {

/// `evalexpr::Node`, a parsed expression; nothing is known of what is in it.
#[verifier::external_type_specification]
#[verifier::external_body]
pub struct ExNode(evalexpr::Node);

/// `evalexpr::EvalexprError`; nothing is known of what is in it.
#[verifier::external_type_specification]
#[verifier::external_body]
pub struct ExEvalexprError(evalexpr::EvalexprError);

/// `evalexpr::HashMapContext`, the variables an expression is evaluated
/// with; what it holds is spoken of through [`context_bindings`].
#[verifier::external_type_specification]
#[verifier::external_body]
pub struct ExHashMapContext(evalexpr::HashMapContext);

/// The kind of value an expression came to, with the value where it is a
/// boolean.
#[derive(Debug, Clone, Copy, PartialEq, Eq, Structural)]
pub enum Evaluated {
    Text,
    Float,
    Int,
    Boolean(bool),
    Tuple,
    Empty,
}

/// Whether `evalexpr::build_operator_tree` accepts `text`.
pub uninterp spec fn expression_parses(text: Seq<char>) -> bool;

/// The string variables of a context made by `HashMapContext::new` and filled
/// by `set_value` with strings only; `None` for any other context.
pub uninterp spec fn context_bindings(context: evalexpr::HashMapContext) -> Option<
    Map<Seq<char>, Seq<char>>,
>;

/// Whether the functions that `evalexpr` has built in are switched off in a
/// context.
pub uninterp spec fn context_is_bare(context: evalexpr::HashMapContext) -> bool;

/// What `evalexpr::eval_with_context` makes of a `text` without the
/// character `^` in a context that holds exactly the string variables
/// `variables` and has the built-in functions switched off: the kind of its
/// value, or `None` where it fails. Nothing is said of a text with `^`,
/// which may name the power operator.
pub uninterp spec fn expression_value(
    text: Seq<char>,
    variables: Map<Seq<char>, Seq<char>>,
) -> Option<Evaluated>;

/// `evalexpr::build_operator_tree`: tokenizes and parses `text`. The result
/// is `Ok` exactly for the texts that [`expression_parses`] names.
#[verifier::external_body]
fn build_tree(text: &str) -> (r: Result<evalexpr::Node, evalexpr::EvalexprError>)
    ensures
        r is Ok <==> expression_parses(text@),
{
    evalexpr::build_operator_tree(text)
}

/// `HashMapContext::new`: a context without variables or functions of its
/// own, with the built-in functions switched on.
#[verifier::external_body]
fn new_context() -> (context: evalexpr::HashMapContext)
    ensures
        context_bindings(context) == Some(Map::<Seq<char>, Seq<char>>::empty()),
        !context_is_bare(context),
{
    evalexpr::HashMapContext::new()
}

/// `Context::set_builtin_functions_disabled` with `true`, which a
/// `HashMapContext` always takes: switches the built-in functions off and
/// leaves the variables as they are.
#[verifier::external_body]
fn switch_off_functions(context: &mut evalexpr::HashMapContext) -> (r: Result<
    (),
    evalexpr::EvalexprError,
>)
    ensures
        r is Ok,
        context_is_bare(*final(context)),
        context_bindings(*final(context)) == context_bindings(*old(context)),
{
    evalexpr::Context::set_builtin_functions_disabled(context, true)
}

/// `HashMapContext::set_value` with a string value. It fails only where the
/// name is already bound to a value of another type, so in a context of
/// string variables it succeeds, and binds `name` to `value` in place of
/// what `name` was bound to.
#[verifier::external_body]
fn bind(context: &mut evalexpr::HashMapContext, name: &str, value: &str) -> (r: Result<
    (),
    evalexpr::EvalexprError,
>)
    ensures
        context_bindings(*old(context)) matches Some(before) ==> r is Ok && context_bindings(
            *final(context),
        ) == Some(before.insert(name@, value@)),
        context_is_bare(*final(context)) == context_is_bare(*old(context)),
{
    evalexpr::ContextWithMutableVariables::set_value(
        context,
        name.to_string(),
        evalexpr::Value::String(value.to_string()),
    )
}

/// `evalexpr::eval_with_context`: parses `text` and evaluates it against the
/// context, which it does not change. With the built-in functions switched
/// off what is left are literals, variables and operators, whose evaluation
/// returns an error where it cannot go on. The power operator `^` is the
/// one operator that is computed by a floating-point routine of the
/// machine; a text without that character cannot name it, so for such a
/// text the result is a function of the text and the variables. It is
/// reported by kind. Of a text with `^` nothing is claimed.
#[verifier::external_body]
fn evaluate_in(text: &str, context: &evalexpr::HashMapContext) -> (r: Result<
    Evaluated,
    evalexpr::EvalexprError,
>)
    requires
        context_bindings(*context) is Some,
        context_is_bare(*context),
    ensures
        !uses_power(text@) ==> match r {
            Ok(value) => expression_value(text@, context_bindings(*context)->0) == Some(value),
            Err(_) => expression_value(text@, context_bindings(*context)->0) is None,
        },
{
    match evalexpr::eval_with_context(text, context) {
        Ok(evalexpr::Value::String(_)) => Ok(Evaluated::Text),
        Ok(evalexpr::Value::Float(_)) => Ok(Evaluated::Float),
        Ok(evalexpr::Value::Int(_)) => Ok(Evaluated::Int),
        Ok(evalexpr::Value::Boolean(b)) => Ok(Evaluated::Boolean(b)),
        Ok(evalexpr::Value::Tuple(_)) => Ok(Evaluated::Tuple),
        Ok(evalexpr::Value::Empty) => Ok(Evaluated::Empty),
        Err(e) => Err(e),
    }
}

/// The `Display` text of an `evalexpr` error.
#[verifier::external_body]
fn describe(error: &evalexpr::EvalexprError) -> (text: String) {
    error.to_string()
}

/// Whether `text` holds the character `^`, and so may use the power
/// operator.
pub open spec fn uses_power(text: Seq<char>) -> bool {
    text.contains('^')
}

/// Why a condition could not be built or evaluated.
#[derive(Debug, Clone, PartialEq, Eq)]
pub enum ExpressionError {
    /// The text is not an expression.
    Syntax { expression: String, detail: String },
    /// A variable could not be bound.
    Binding { name: String, detail: String },
    /// The expression could not be evaluated.
    Evaluation { expression: String, detail: String },
    /// The expression did not evaluate to a boolean.
    NotBoolean { expression: String, got: Evaluated },
}

impl Evaluated {
    /// The name of the kind of value.
    pub open spec fn kind_text(self) -> Seq<char> {
        match self {
            Evaluated::Text => "a string"@,
            Evaluated::Float => "a float"@,
            Evaluated::Int => "an integer"@,
            Evaluated::Boolean(_) => "a boolean"@,
            Evaluated::Tuple => "a tuple"@,
            Evaluated::Empty => "nothing"@,
        }
    }

    /// The name of the kind of value.
    pub fn kind(self) -> (r: &'static str)
        ensures
            r@ == self.kind_text(),
    {
        match self {
            Evaluated::Text => "a string",
            Evaluated::Float => "a float",
            Evaluated::Int => "an integer",
            Evaluated::Boolean(_) => "a boolean",
            Evaluated::Tuple => "a tuple",
            Evaluated::Empty => "nothing",
        }
    }
}

impl ExpressionError {
    /// The error in words, with what `evalexpr` says of it where it is one
    /// of its errors.
    pub open spec fn message_text(&self) -> Seq<char> {
        match self {
            ExpressionError::Syntax { expression, detail } => "Failed to parse expression: "@
                + expression@ + ": "@ + detail@,
            ExpressionError::Binding { name, detail } => "unable to set variable: "@ + name@ + ": "@
                + detail@,
            ExpressionError::Evaluation { expression, detail } => "Failed to evaluate expression: "@
                + expression@ + ": "@ + detail@,
            ExpressionError::NotBoolean { expression, got } => "expression did not evaluate to a boolean, got "@
                + got.kind_text() + ": "@ + expression@,
        }
    }

    /// The error in words.
    pub fn message(&self) -> (r: String)
        ensures
            r@ == self.message_text(),
    {
        match self {
            ExpressionError::Syntax { expression, detail } => {
                let r = "Failed to parse expression: ".to_owned().concat(expression.as_str()).concat(
                    ": ",
                ).concat(detail.as_str());
                assert(r@ =~= self.message_text());
                r
            },
            ExpressionError::Binding { name, detail } => {
                let r = "unable to set variable: ".to_owned().concat(name.as_str()).concat(
                    ": ",
                ).concat(detail.as_str());
                assert(r@ =~= self.message_text());
                r
            },
            ExpressionError::Evaluation { expression, detail } => {
                let r = "Failed to evaluate expression: ".to_owned().concat(
                    expression.as_str(),
                ).concat(": ").concat(detail.as_str());
                assert(r@ =~= self.message_text());
                r
            },
            ExpressionError::NotBoolean { expression, got } => {
                let r = "expression did not evaluate to a boolean, got ".to_owned().concat(
                    got.kind(),
                ).concat(": ").concat(expression.as_str());
                assert(r@ =~= self.message_text());
                r
            },
        }
    }
}

/// What is pinned of an error: its kind, and the expression or name at fault.
pub enum Failure {
    Syntax { expression: Seq<char> },
    Binding { name: Seq<char> },
    Evaluation { expression: Seq<char> },
    NotBoolean { expression: Seq<char>, got: Evaluated },
}

impl View for ExpressionError {
    type V = Failure;

    open spec fn view(&self) -> Failure {
        match self {
            ExpressionError::Syntax { expression, .. } => Failure::Syntax {
                expression: expression@,
            },
            ExpressionError::Binding { name, .. } => Failure::Binding { name: name@ },
            ExpressionError::Evaluation { expression, .. } => Failure::Evaluation {
                expression: expression@,
            },
            ExpressionError::NotBoolean { expression, got } => Failure::NotBoolean {
                expression: expression@,
                got: *got,
            },
        }
    }
}

/// What is made of the value that an expression came to: a boolean is the
/// answer, any other value and no value are failures.
pub open spec fn judged(text: Seq<char>, value: Option<Evaluated>) -> Result<bool, Failure> {
    match value {
        Some(Evaluated::Boolean(b)) => Ok(b),
        Some(other) => Err(Failure::NotBoolean { expression: text, got: other }),
        None => Err(Failure::Evaluation { expression: text }),
    }
}

/// The verdict of a `text` without `^` over `variables`: its boolean value,
/// or the failure to come to one.
pub open spec fn verdict(text: Seq<char>, variables: Map<Seq<char>, Seq<char>>) -> Result<
    bool,
    Failure,
> {
    judged(text, expression_value(text, variables))
}

/// What evaluating `text` can come to at all: a boolean, or the failure to
/// evaluate it, or a value that is no boolean.
pub open spec fn possible(r: Result<bool, ExpressionError>, text: Seq<char>) -> bool {
    match r {
        Ok(_) => true,
        Err(e) => e@ == (Failure::Evaluation { expression: text }) || (e@ matches Failure::NotBoolean {
            expression,
            got,
        } && expression == text && !(got is Boolean)),
    }
}

/// Whether an executable result `r` is the verdict `model`.
pub open spec fn matches_verdict(r: Result<bool, ExpressionError>, model: Result<bool, Failure>) -> bool {
    match model {
        Ok(b) => r == Ok::<bool, ExpressionError>(b),
        Err(failure) => r matches Err(e) && e@ == failure,
    }
}

/// Insists that the value of `expression` is a boolean.
pub fn as_boolean(value: Evaluated, expression: &str) -> (r: Result<bool, ExpressionError>)
    ensures
        match value {
            Evaluated::Boolean(b) => r == Ok::<bool, ExpressionError>(b),
            other => r matches Err(e) && e@ == (Failure::NotBoolean {
                expression: expression@,
                got: other,
            }),
        },
{
    match value {
        Evaluated::Boolean(b) => Ok(b),
        other => Err(ExpressionError::NotBoolean { expression: expression.to_owned(), got: other }),
    }
}

/// An expression whose syntax has been checked.
#[derive(Debug, Clone, PartialEq, Eq)]
pub struct Expression {
    text: String,
}

impl View for Expression {
    type V = Seq<char>;

    closed spec fn view(&self) -> Seq<char> {
        self.text@
    }
}

impl Expression {
    /// Checks the syntax of `expr` and keeps it for evaluation.
    pub fn new(expr: &str) -> (r: Result<Self, ExpressionError>)
        ensures
            match r {
                Ok(expression) => expression_parses(expr@) && expression@ == expr@,
                Err(e) => !expression_parses(expr@) && e@ == (Failure::Syntax { expression: expr@ }),
            },
    {
        match build_tree(expr) {
            Ok(_) => Ok(Expression { text: expr.to_owned() }),
            Err(e) => Err(
                ExpressionError::Syntax { expression: expr.to_owned(), detail: describe(&e) },
            ),
        }
    }

    /// The expression as written.
    pub fn text(&self) -> (s: &str)
        ensures
            s@ == self@,
    {
        self.text.as_str()
    }

    /// Whether it is said what the expression comes to: it holds no `^`.
    pub open spec fn certain(&self) -> bool {
        !uses_power(self@)
    }

    /// Evaluates the expression with each of `variables` bound to its text;
    /// of two entries with one name the later counts.
    ///
    /// The result is a boolean, or the failure to evaluate the expression,
    /// or to come to a boolean. For an expression without `^` it is the
    /// [`verdict`].
    pub fn evaluate(&self, variables: &Vec<Variable>) -> (r: Result<bool, ExpressionError>)
        ensures
            possible(r, self@),
            self.certain() ==> matches_verdict(r, verdict(self@, bindings(variables@))),
    {
        let mut context = new_context();
        match switch_off_functions(&mut context) {
            Ok(_) => {},
            Err(e) => {
                return Err(
                    ExpressionError::Evaluation {
                        expression: self.text.clone(),
                        detail: describe(&e),
                    },
                );
            },
        }
        let mut i: usize = 0;
        while i < variables.len()
            invariant
                i <= variables@.len(),
                context_is_bare(context),
                context_bindings(context) == Some(bindings(variables@.take(i as int))),
            decreases variables@.len() - i,
        {
            let entry = &variables[i];
            proof {
                assert(variables@.take(i + 1).drop_last() =~= variables@.take(i as int));
            }
            match bind(&mut context, entry.name.as_str(), entry.value.as_str()) {
                Ok(_) => {},
                Err(e) => {
                    return Err(
                        ExpressionError::Binding { name: entry.name.clone(), detail: describe(&e) },
                    );
                },
            }
            i += 1;
        }
        assert(variables@.take(i as int) =~= variables@);
        match evaluate_in(self.text.as_str(), &context) {
            Ok(value) => as_boolean(value, self.text.as_str()),
            Err(e) => Err(
                ExpressionError::Evaluation { expression: self.text.clone(), detail: describe(&e) },
            ),
        }
    }
}

/// Whether something runs: a fixed answer or an expression. Absent, it is
/// `true`.
#[derive(Debug, Clone, PartialEq, Eq)]
pub enum Conditional {
    Bool(bool),
    Expression(Expression),
}

impl Conditional {
    /// The answer over `variables`.
    pub open spec fn verdict(&self, variables: Map<Seq<char>, Seq<char>>) -> Result<bool, Failure> {
        match self {
            Conditional::Bool(b) => Ok(*b),
            Conditional::Expression(expression) => verdict(expression@, variables),
        }
    }

    /// Whether it is said what the answer is: it is fixed, or an expression
    /// without `^`.
    pub open spec fn certain(&self) -> bool {
        match self {
            Conditional::Bool(_) => true,
            Conditional::Expression(expression) => expression.certain(),
        }
    }

    /// The answer with each of `variables` bound to its text: the fixed
    /// answer, or what evaluating the expression comes to.
    pub fn evaluate(&self, variables: &Vec<Variable>) -> (r: Result<bool, ExpressionError>)
        ensures
            self matches Conditional::Expression(expression) ==> possible(r, expression@),
            self.certain() ==> matches_verdict(r, self.verdict(bindings(variables@))),
    {
        match self {
            Conditional::Bool(b) => Ok(*b),
            Conditional::Expression(expression) => expression.evaluate(variables),
        }
    }
}

impl Default for Conditional {
    fn default() -> (r: Self)
        ensures
            r == Conditional::Bool(true),
    {
        Conditional::Bool(true)
    }
}

/// Whether a failure lets the work go on: a fixed answer or an expression.
/// Absent, it is `false`.
#[derive(Debug, Clone, PartialEq, Eq)]
pub enum ContinueOnError {
    Bool(bool),
    Expression(Expression),
}

impl ContinueOnError {
    /// The answer over `variables`.
    pub open spec fn verdict(&self, variables: Map<Seq<char>, Seq<char>>) -> Result<bool, Failure> {
        match self {
            ContinueOnError::Bool(b) => Ok(*b),
            ContinueOnError::Expression(expression) => verdict(expression@, variables),
        }
    }

    /// Whether it is said what the answer is: it is fixed, or an expression
    /// without `^`.
    pub open spec fn certain(&self) -> bool {
        match self {
            ContinueOnError::Bool(_) => true,
            ContinueOnError::Expression(expression) => expression.certain(),
        }
    }

    /// The answer with each of `variables` bound to its text: the fixed
    /// answer, or what evaluating the expression comes to.
    pub fn evaluate(&self, variables: &Vec<Variable>) -> (r: Result<bool, ExpressionError>)
        ensures
            self matches ContinueOnError::Expression(expression) ==> possible(r, expression@),
            self.certain() ==> matches_verdict(r, self.verdict(bindings(variables@))),
    {
        match self {
            ContinueOnError::Bool(b) => Ok(*b),
            ContinueOnError::Expression(expression) => expression.evaluate(variables),
        }
    }
}

impl Default for ContinueOnError {
    fn default() -> (r: Self)
        ensures
            r == ContinueOnError::Bool(false),
    {
        ContinueOnError::Bool(false)
    }
}

} // verus!
