//! Expressions, the evaluation rules that need no arithmetic, and the history.
pub mod evaluator;
pub mod expression;
pub mod history;

pub use evaluator::EvaluatorError;
pub use expression::prepend_ans_if_leading_operator;
pub use history::{Entry, History};
