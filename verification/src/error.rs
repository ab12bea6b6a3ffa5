//! The errors of the wrapper.
use vstd::prelude::*;

verus! {

/// `std::io::Error`, carried through errors as it is.
#[verifier::external_type_specification]
#[verifier::external_body]
pub struct ExIoError(std::io::Error);

/// What went wrong while assembling, compiling or splicing objects.
#[derive(Debug)]
pub enum MWError {
    Assembler(String),
    Compiler(String),
    Preprocessor(String),
    Elf(String),
    Io(std::io::Error),
    Internal(&'static str),
}

} // verus!
