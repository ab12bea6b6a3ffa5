//! Names shared between the stub generator and the object splicer.
use vstd::prelude::*;

verus! {

/// What a `.` in a symbol name becomes in generated C identifiers.
pub const SYMBOL_AT: &'static str = "__at__";

/// What a `$` in a symbol name becomes in generated C identifiers.
pub const SYMBOL_DOLLAR: &'static str = "__dollar__";

/// The dollar sign, restored in symbol names after compilation.
pub const DOLLAR_SIGN: &'static str = "$";

/// Prefix given to the stub functions that stand in for assembled ones.
pub const FUNCTION_PREFIX: &'static str = "___mw___";

/// The characters of [`SYMBOL_AT`].
pub open spec fn symbol_at() -> Seq<char> {
    seq!['_', '_', 'a', 't', '_', '_']
}

/// The characters of [`SYMBOL_DOLLAR`].
pub open spec fn symbol_dollar() -> Seq<char> {
    seq!['_', '_', 'd', 'o', 'l', 'l', 'a', 'r', '_', '_']
}

/// The characters of [`FUNCTION_PREFIX`].
pub open spec fn function_prefix() -> Seq<char> {
    seq!['_', '_', '_', 'm', 'w', '_', '_', '_']
}

/// The characters of the constants above.
pub proof fn lemma_constants()
    ensures
        SYMBOL_AT@ == symbol_at(),
        SYMBOL_DOLLAR@ == symbol_dollar(),
        DOLLAR_SIGN@ == seq!['$'],
        FUNCTION_PREFIX@ == function_prefix(),
{
    reveal_strlit("__at__");
    reveal_strlit("__dollar__");
    reveal_strlit("$");
    reveal_strlit("___mw___");
    assert(SYMBOL_AT@ =~= symbol_at());
    assert(SYMBOL_DOLLAR@ =~= symbol_dollar());
    assert(DOLLAR_SIGN@ =~= seq!['$']);
    assert(FUNCTION_PREFIX@ =~= function_prefix());
}

} // verus!
