//! The diagnostic model: the closed set of error kinds the pipeline reports,
//! and their compiler-style text rendering.
//!
//! Both kinds carry the rendering of the offending input, the source file
//! path and a `(line, column)` coordinate.  An error is constructed at the
//! failure site and aborts the whole compilation: there is no recovery.

use vstd::prelude::*;

use crate::text::{dec_text, u32_string};

verus! {

/// A diagnostic from the lexer or the parser.
#[derive(Debug)]
pub enum Error {
    /// An unrecognized character or token in a position where no rule
    /// applies.
    IllegalSyntaxError { found: String, filepath: String, coord: (u32, u32) },
    /// A required token (such as `{`, `=` or `)`) was absent.
    FoundExpectedError { found: String, expected: String, filepath: String, coord: (u32, u32) },
}

/// The mathematical model of an [`Error`]: text as character sequences, the
/// coordinate as a pair of integers.
pub ghost enum ErrorV {
    IllegalSyntax { found: Seq<char>, filepath: Seq<char>, coord: (int, int) },
    FoundExpected { found: Seq<char>, expected: Seq<char>, filepath: Seq<char>, coord: (int, int) },
}

impl View for Error {
    type V = ErrorV;

    open spec fn view(&self) -> ErrorV {
        match self {
            Error::IllegalSyntaxError { found, filepath, coord } => ErrorV::IllegalSyntax {
                found: found@,
                filepath: filepath@,
                coord: (coord.0 as int, coord.1 as int),
            },
            Error::FoundExpectedError { found, expected, filepath, coord } => ErrorV::FoundExpected {
                found: found@,
                expected: expected@,
                filepath: filepath@,
                coord: (coord.0 as int, coord.1 as int),
            },
        }
    }
}

/// The location line shared by both renderings: `  -->  <file>:<line>:<col>`
/// followed by a newline.
pub open spec fn location_text(filepath: Seq<char>, coord: (int, int)) -> Seq<char> {
    "  -->  "@ + filepath + ":"@ + dec_text(coord.0 as nat) + ":"@ + dec_text(coord.1 as nat)
        + "\n"@
}

/// The rendering of an [`ErrorV::IllegalSyntax`]: a header naming the error
/// class, the location line, then what was found.
pub open spec fn illegal_syntax_text(found: Seq<char>, filepath: Seq<char>, coord: (int, int)) -> Seq<
    char,
> {
    "ERROR: Illegal Syntax Error\n"@ + location_text(filepath, coord) + "Found: "@ + found
}

/// The rendering of an [`ErrorV::FoundExpected`]: a header, the location
/// line, then what was found and what was expected.
pub open spec fn found_expected_text(
    found: Seq<char>,
    expected: Seq<char>,
    filepath: Seq<char>,
    coord: (int, int),
) -> Seq<char> {
    "ERROR: Invalid Syntax Error\n"@ + location_text(filepath, coord) + "Found "@ + found
        + ", Expected "@ + expected
}

/// The rendering of any [`ErrorV`].
pub open spec fn error_text(e: ErrorV) -> Seq<char> {
    match e {
        ErrorV::IllegalSyntax { found, filepath, coord } => illegal_syntax_text(
            found,
            filepath,
            coord,
        ),
        ErrorV::FoundExpected { found, expected, filepath, coord } => found_expected_text(
            found,
            expected,
            filepath,
            coord,
        ),
    }
}

fn push_location(out: &mut String, filepath: &String, coord: (u32, u32))
    ensures
        final(out)@ == old(out)@ + location_text(filepath@, (coord.0 as int, coord.1 as int)),
{
    out.append("  -->  ");
    out.append(filepath.as_str());
    out.append(":");
    let line = u32_string(coord.0);
    out.append(line.as_str());
    out.append(":");
    let col = u32_string(coord.1);
    out.append(col.as_str());
    out.append("\n");
}

impl Error {
    /// Renders an illegal-syntax diagnostic as the compiler prints it.
    pub fn handle_illegal_syntax_error(found: &String, filepath: &String, coord: (u32, u32)) -> (r:
        String)
        ensures
            r@ == illegal_syntax_text(found@, filepath@, (coord.0 as int, coord.1 as int)),
    {
        let mut out = String::new();
        out.append("ERROR: Illegal Syntax Error\n");
        push_location(&mut out, filepath, coord);
        out.append("Found: ");
        out.append(found.as_str());
        assert(out@ =~= illegal_syntax_text(found@, filepath@, (coord.0 as int, coord.1 as int)));
        out
    }

    /// Renders a found/expected diagnostic as the compiler prints it.
    pub fn handle_found_expected_error(
        found: &String,
        expected: &String,
        filepath: &String,
        coord: (u32, u32),
    ) -> (r: String)
        ensures
            r@ == found_expected_text(
                found@,
                expected@,
                filepath@,
                (coord.0 as int, coord.1 as int),
            ),
    {
        let mut out = String::new();
        out.append("ERROR: Invalid Syntax Error\n");
        push_location(&mut out, filepath, coord);
        out.append("Found ");
        out.append(found.as_str());
        out.append(", Expected ");
        out.append(expected.as_str());
        assert(out@ =~= found_expected_text(
            found@,
            expected@,
            filepath@,
            (coord.0 as int, coord.1 as int),
        ));
        out
    }

    /// The rendered diagnostic text for this error.
    pub fn render(&self) -> (r: String)
        ensures
            r@ == error_text(self@),
    {
        match self {
            Error::IllegalSyntaxError { found, filepath, coord } => {
                Error::handle_illegal_syntax_error(found, filepath, *coord)
            },
            Error::FoundExpectedError { found, expected, filepath, coord } => {
                Error::handle_found_expected_error(found, expected, filepath, *coord)
            },
        }
    }
}

} // verus!
