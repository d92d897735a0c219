//! Parser-generator core: grammar analysis (nullable, FIRST, FOLLOW), an LL(1)
//! predict-table builder and driver, and an LR(0)/SLR(1) automaton builder and
//! shift-reduce driver.

pub mod analysis;
pub mod automaton;
pub mod grammar;
pub mod ll_parser;
pub mod lr_items;
pub mod lr_parser;
pub mod model;
pub mod reach;
pub mod rule_text;
pub mod symbol;
