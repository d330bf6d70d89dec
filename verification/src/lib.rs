#![allow(unused_imports)]
use vstd::prelude::*;

pub mod text;
pub mod text_laws;
pub mod names;
pub mod syntax;
pub mod syntax_laws;
pub mod chan;
pub mod value;
pub mod equality;
pub mod semantics;
pub mod small_step;
pub mod adequacy;
pub mod stack;
pub mod machine;
pub mod exchange;
pub mod interp;
pub mod meaning;
pub mod evaluation_laws;
pub mod pattern_laws;
pub mod builtin_laws;
pub mod channel_laws;
pub mod scoping;
pub mod tyvars;
pub mod subst;
pub mod ty;
pub mod ty_text;
pub mod ty_laws;
pub mod scheme_laws;
pub mod ty_text_laws;
