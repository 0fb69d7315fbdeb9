pub mod function;
pub mod integer;
pub mod power;
pub mod product;
pub mod rational;
pub mod sum;
pub mod variable;

pub use function::Function;
pub use integer::Integer;
pub use power::Power;
pub use product::Product;
pub use rational::Rational;
pub use sum::Sum;
pub use variable::Variable;
