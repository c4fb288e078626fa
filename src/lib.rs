//! The runtime core of the Watt scripting language: runtime values and the
//! heap behind them, scope tables chained by lexical and dynamic links, and
//! the resolver that turns imported modules into declaration blocks.

pub mod error;
pub mod value;
pub mod table;
pub mod resolver;
pub mod testing;
