//! A small standard library for the classical side of the calculus, and a
//! library of basic quantum definitions, loaded into the environment at
//! start-up.

use vstd::prelude::*;
use crate::term::TermX;
use crate::parser::{spec_parse, parse, str_chars};
use crate::repl::{Repl, env_put, spec_populate};

verus! {

broadcast use vstd::string::group_string_axioms;

/// What loading one definition line does: the right side is parsed,
/// expanded against the current environment, and stored under the name; a
/// line that does not parse leaves the environment alone.
pub open spec fn spec_define(
    e: Seq<(Seq<char>, TermX)>,
    name: Seq<char>,
    text: Seq<char>,
) -> Seq<(Seq<char>, TermX)> {
    match spec_parse(text) {
        Ok(t) => env_put(e, name, spec_populate(t, e, Set::empty())),
        Err(_) => e,
    }
}

/// Parses one definition line, expands it against the current environment,
/// and stores it; a line that does not parse is skipped.
fn define(repl: &mut Repl, name: &str, text: &str)
    ensures
        final(repl)@ == spec_define(old(repl)@, name@, text@),
{
    let chars = str_chars(text);
    match parse(&chars) {
        Ok(t) => {
            let expanded = crate::repl::populate_term(&t, repl);
            repl.put_env(String::from_str(name), expanded);
        },
        Err(_) => {},
    }
}

/// Loads a standard library for the classical lambda calculus: the
/// duplicable identity, the Church pair and triple makers, and swap.
pub fn load_stdlib(repl: &mut Repl)
    ensures
        final(repl)@ == spec_define(
            spec_define(
                spec_define(
                    spec_define(old(repl)@, "id"@, "#x. x"@),
                    "pair"@,
                    "\\x.\\y.\\b.b x y"@,
                ),
                "trip"@,
                "\\x.\\y.\\z.\\f.f x y z"@,
            ),
            "swap"@,
            "\\p.p (\\x.\\y. pair y x)"@,
        ),
{
    define(repl, "id", "#x. x");
    define(repl, "pair", "\\x.\\y.\\b.b x y");
    define(repl, "trip", "\\x.\\y.\\z.\\f.f x y z");
    define(repl, "swap", "\\p.p (\\x.\\y. pair y x)");
}

/// Loads a library with some basic quantum definitions: the Deutsch
/// algorithm skeleton and the entangled pair.
pub fn load_qntmlib(repl: &mut Repl)
    ensures
        final(repl)@ == spec_define(
            spec_define(
                old(repl)@,
                "deutsch"@,
                "\\U.(U (pair (H |0>) (H |1>))) (\\x.\\y. pair (H x) y)"@,
            ),
            "epr"@,
            "C (pair (H |0>) |0>)"@,
        ),
{
    define(repl, "deutsch", "\\U.(U (pair (H |0>) (H |1>))) (\\x.\\y. pair (H x) y)");
    define(repl, "epr", "C (pair (H |0>) |0>)");
}

} // verus!
