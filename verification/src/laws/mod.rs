//! What holds of the library as a whole.

pub mod abstracts;
pub mod arithmetic;
pub mod bindings;
pub mod branches;
pub mod calls;
pub mod commands;
pub mod components;
pub mod declarations;
pub mod depth;
pub mod determinism;
pub mod division;
pub mod evaluation;
pub mod field;
pub mod field_scripts;
pub mod finite;
pub mod fresh;
pub mod guards;
pub mod integers;
pub mod items;
pub mod joining;
pub mod labels;
pub mod limits;
pub mod lines;
pub mod loading;
pub mod lowering;
pub mod messages;
pub mod naming;
pub mod numerals;
pub mod phrases;
pub mod places;
pub mod polynomials;
pub mod precedence;
pub mod printing;
pub mod reading;
pub mod reports;
pub mod results;
pub mod rewriting;
pub mod scope;
pub mod scripts;
pub mod solver_terms;
pub mod spelling;
pub mod steps;
pub mod systems;
pub mod texts;
pub mod verdicts;
pub mod words;
