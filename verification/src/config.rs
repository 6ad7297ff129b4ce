//! Reading a configuration text.

use crate::error::Error;
use crate::layout::{
    all_multiples, indent, indent_of, indents, least_of, measured, nats, normalize, split_lines,
    views,
};
use crate::parser::{Parser, ParserView, Step, StepView};
use crate::text::{byte_len, chars_of, lemma_byte_len_prefix, string_of, trim_start, trimmed_start};
use vstd::prelude::*;

verus! {

/// The configuration of all listeners, as a text describes it.
pub struct ListenerConfig;

/// Measured lines as the specification sees them.
pub open spec fn line_views(lines: Seq<(usize, String)>) -> Seq<(nat, Seq<char>)> {
    Seq::new(lines.len(), |i: int| (lines[i].0 as nat, lines[i].1@))
}

/// What parsing a text comes to first: the text is refused where it has no
/// indentation structure, and else its lines are read from the first on.
pub open spec fn parsed(text: Seq<char>) -> StepView {
    match measured(text) {
        Err(m) => StepView::Failed(m),
        Ok(lines) => ParserView::start(lines).advance(),
    }
}

impl ListenerConfig {
    /// Finds the indentation structure of `buf`: its content lines in order,
    /// each with its depth and its content without indentation. Comments
    /// and trailing white space do not count, nor do lines that hold
    /// nothing else, nor the indentation of the first line that is left.
    /// The unit of indentation is the smallest indentation that is not
    /// zero, in bytes; a text in which no line is indented, or some line is
    /// indented by no whole number of units, has no structure.
    pub fn measure(buf: &str) -> (r: Result<Vec<(usize, String)>, Error>)
        ensures
            match measured(buf@) {
                Ok(lines) => r matches Ok(v) && line_views(v@) == lines,
                Err(m) => r matches Err(e) && e@ == m,
            },
    {
        let chars = chars_of(buf);
        let mut lines = split_lines(chars.as_slice());
        if lines.len() > 0 {
            let first = trimmed_start(lines[0]);
            proof {
                lemma_byte_len_prefix(lines[0]@, lines[0]@.len() - first@.len());
            }
            lines.set(0, first);
        }
        assert(views(lines@) =~= normalize(buf@));
        let mut widths: Vec<usize> = Vec::new();
        let mut i: usize = 0;
        while i < lines.len()
            invariant
                i <= lines.len(),
                widths.len() == i,
                forall|j: int|
                    0 <= j < lines.len() ==> byte_len(#[trigger] lines[j]@) <= usize::MAX,
                forall|j: int| 0 <= j < i ==> widths[j] == indent(#[trigger] lines[j]@),
            decreases lines.len() - i,
        {
            widths.push(indent_of(lines[i]));
            i += 1;
        }
        assert(nats(widths@) =~= indents(views(lines@)));
        let unit = least_of(&widths);
        if unit == 0 {
            return Err(Error::new("missing directives"));
        }
        if !all_multiples(&widths, unit) {
            return Err(Error::new("inconsistent indentation"));
        }
        let mut out: Vec<(usize, String)> = Vec::new();
        let mut k: usize = 0;
        while k < lines.len()
            invariant
                k <= lines.len(),
                out.len() == k,
                widths.len() == lines.len(),
                unit > 0,
                forall|j: int| 0 <= j < lines.len() ==> widths[j] == indent(#[trigger] lines[j]@),
                forall|j: int|
                    0 <= j < k ==> (#[trigger] out[j]).0 == indent(lines[j]@) / (unit as nat)
                        && out[j].1@ == trim_start(lines[j]@),
            decreases lines.len() - k,
        {
            out.push((widths[k] / unit, string_of(trimmed_start(lines[k]))));
            k += 1;
        }
        assert(line_views(out@) =~= measured(buf@)->Ok_0);
        Ok(out)
    }

    /// Parses `buf` as far as that goes without asking outside. The step
    /// that comes back says what is needed, and takes the answer; the last
    /// step holds the listeners, one for each block and in the order of the
    /// blocks, or the error that refuses the whole text.
    pub fn parse(buf: &str) -> (step: Step)
        ensures
            step@ == parsed(buf@),
    {
        match Self::measure(buf) {
            Err(e) => Step::Failed(e),
            Ok(lines) => Parser::new(lines).advance(),
        }
    }
}

} // verus!
