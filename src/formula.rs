//! The expression language, provided by `evalexpr`.
use vstd::prelude::*;

verus! {

#[verifier::external_type_specification]
#[verifier::external_body]
pub struct ExHashMapContext(evalexpr::HashMapContext);

#[verifier::external_type_specification]
#[verifier::external_body]
pub struct ExEvalexprError(evalexpr::EvalexprError);

/// Whether `text` is a well-formed expression.
pub uninterp spec fn formula_parses(text: Seq<char>) -> bool;

/// The variables that a context holds, each bound to the bits of a number.
pub uninterp spec fn context_vars(c: evalexpr::HashMapContext) -> Map<Seq<char>, u64>;

/// Whether a context has evalexpr's builtin functions switched off.
pub uninterp spec fn builtins_disabled(c: evalexpr::HashMapContext) -> bool;

/// The bits of the number that a decimal literal denotes, if it is one.
pub uninterp spec fn float_literal(text: Seq<char>) -> Option<u64>;

/// Relies on `evalexpr::build_operator_tree`: it succeeds exactly on
/// well-formed expressions.
#[verifier::external_body]
pub(crate) fn check_formula(text: &str) -> (r: Result<(), evalexpr::EvalexprError>)
    ensures
        r is Ok == formula_parses(text@),
{
    evalexpr::build_operator_tree(text).map(|_| ())
}

/// Relies on `evalexpr::HashMapContext::new`: a context without variables.
#[verifier::external_body]
pub(crate) fn new_context() -> (r: evalexpr::HashMapContext)
    ensures
        context_vars(r).dom() == Set::<Seq<char>>::empty(),
{
    evalexpr::HashMapContext::new()
}

/// Relies on `Context::set_builtin_functions_disabled` of `HashMapContext`:
/// it sets the context's flag and leaves its variables alone. Formulas then
/// see no builtin functions, some of which panic (`str::substring` on an
/// offset inside a character, the shifts on a large count).
#[verifier::external_body]
pub(crate) fn disable_builtins(c: &mut evalexpr::HashMapContext)
    ensures
        context_vars(*final(c)) == context_vars(*old(c)),
        builtins_disabled(*final(c)),
{
    let _ = evalexpr::Context::set_builtin_functions_disabled(c, true);
}

/// Relies on `HashMapContext::set_value`: it binds the name, replacing an
/// earlier value of the same type. Every value set here is a float, so the
/// type check in `set_value` always passes.
#[verifier::external_body]
pub(crate) fn set_number(c: &mut evalexpr::HashMapContext, name: String, bits: u64)
    ensures
        context_vars(*final(c)) == context_vars(*old(c)).insert(name@, bits),
        builtins_disabled(*final(c)) == builtins_disabled(*old(c)),
{
    let value = evalexpr::Value::Float(evalexpr::FloatType::from_bits(bits));
    let _ = evalexpr::ContextWithMutableVariables::set_value(c, name, value);
}

/// Relies on `evalexpr::eval_float_with_context`: it parses `text`, then
/// evaluates it against the context's variables, failing unless the result
/// is a float. The value is not stated: the precision of `powf` and the
/// other math functions, and the bits of a NaN, vary between platforms.
/// With builtin functions off, evaluation does not panic.
#[verifier::external_body]
pub(crate) fn evaluate_formula(text: &str, c: &evalexpr::HashMapContext) -> (r: Result<
    u64,
    evalexpr::EvalexprError,
>)
    requires
        builtins_disabled(*c),
    ensures
        !formula_parses(text@) ==> r is Err,
{
    evalexpr::eval_float_with_context(text, c).map(|v| v.to_bits())
}

/// Relies on `str::parse` for binary64 numbers (`FromStr` of `f64`).
#[verifier::external_body]
pub(crate) fn parse_number(text: &str) -> (r: Option<u64>)
    ensures
        r == float_literal(text@),
{
    text.parse::<evalexpr::FloatType>().ok().map(|v| v.to_bits())
}

} // verus!
