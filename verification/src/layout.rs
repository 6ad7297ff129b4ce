//! The indentation structure of a configuration text: which lines count,
//! how far each is indented, and what unit the indentation is made of.

use crate::text::{
    byte_len, find, find_pair, index_of, index_of_pair, leading, leading_whitespace,
    lemma_byte_len_prefix, lemma_byte_len_step, trim_end, trim_start, trimmed_end, width,
};
use vstd::prelude::*;
use vstd::slice::slice_subrange;

verus! {

/// A line up to the first `//`.
pub open spec fn strip_comment(line: Seq<char>) -> Seq<char> {
    line.take(index_of_pair(line, '/', '/') as int)
}

/// What counts of a line: its text before any comment, trailing white space
/// removed.
pub open spec fn clean(line: Seq<char>) -> Seq<char> {
    trim_end(strip_comment(line))
}

/// The lines of `text` that hold anything once comments and trailing white
/// space are gone, in order.
pub open spec fn content_lines(text: Seq<char>) -> Seq<Seq<char>>
    decreases text.len(),
{
    let end = index_of(text, '\n') as int;
    let head = clean(text.take(end));
    let rest = if end < text.len() {
        content_lines(text.skip(end + 1))
    } else {
        Seq::empty()
    };
    if head.len() > 0 {
        seq![head] + rest
    } else {
        rest
    }
}

/// The content lines of `text`, the first of them without its indentation:
/// white space before the first content of a text never counts.
pub open spec fn normalize(text: Seq<char>) -> Seq<Seq<char>> {
    let lines = content_lines(text);
    if lines.len() > 0 {
        lines.update(0, trim_start(lines[0]))
    } else {
        lines
    }
}

/// The width of a line's indentation: the bytes that its leading white space
/// takes in UTF-8.
pub open spec fn indent(line: Seq<char>) -> nat {
    byte_len(line.take(leading_whitespace(line) as int))
}

/// The indentation widths of `lines`, in order.
pub open spec fn indents(lines: Seq<Seq<char>>) -> Seq<nat> {
    Seq::new(lines.len(), |i: int| indent(lines[i]))
}

/// The smallest of `widths` that is not zero, or zero if all are.
pub open spec fn least_nonzero(widths: Seq<nat>) -> nat
    decreases widths.len(),
{
    if widths.len() == 0 {
        0
    } else {
        let least = least_nonzero(widths.drop_last());
        let w = widths.last();
        if w == 0 {
            least
        } else if least == 0 || w < least {
            w
        } else {
            least
        }
    }
}

/// Every width is a whole number of units.
pub open spec fn consistent(widths: Seq<nat>, unit: nat) -> bool {
    forall|i: int| 0 <= i < widths.len() ==> #[trigger] widths[i] % unit == 0
}

/// Each line as its depth, in units, and its content without indentation.
pub open spec fn with_depths(lines: Seq<Seq<char>>, unit: nat) -> Seq<(nat, Seq<char>)> {
    Seq::new(lines.len(), |i: int| (indent(lines[i]) / unit, trim_start(lines[i])))
}

/// What measuring lines gives: each line with its depth, or the reason why
/// the lines have no indentation structure. The unit is the least
/// indentation that is not zero.
pub open spec fn measured_lines(lines: Seq<Seq<char>>) -> Result<
    Seq<(nat, Seq<char>)>,
    Seq<char>,
> {
    let unit = least_nonzero(indents(lines));
    if unit == 0 {
        Err("missing directives"@)
    } else if !consistent(indents(lines), unit) {
        Err("inconsistent indentation"@)
    } else {
        Ok(with_depths(lines, unit))
    }
}

/// What measuring a text gives: its content lines, each with its depth, or
/// the reason why the text has no indentation structure.
pub open spec fn measured(text: Seq<char>) -> Result<Seq<(nat, Seq<char>)>, Seq<char>> {
    measured_lines(normalize(text))
}

/// Machine widths as natural numbers.
pub open spec fn nats(widths: Seq<usize>) -> Seq<nat> {
    Seq::new(widths.len(), |i: int| widths[i] as nat)
}

/// The views of borrowed lines.
pub open spec fn views(lines: Seq<&[char]>) -> Seq<Seq<char>> {
    Seq::new(lines.len(), |i: int| lines[i]@)
}

/// The least non-zero width is one of the widths, and no width that is not
/// zero is smaller.
pub proof fn lemma_least_nonzero(widths: Seq<nat>)
    ensures
        forall|i: int|
            0 <= i < widths.len() && #[trigger] widths[i] > 0 ==> 0 < least_nonzero(widths)
                <= widths[i],
        least_nonzero(widths) > 0 ==> exists|i: int|
            0 <= i < widths.len() && #[trigger] widths[i] == least_nonzero(widths),
    decreases widths.len(),
{
    if widths.len() > 0 {
        let front = widths.drop_last();
        lemma_least_nonzero(front);
        assert forall|i: int| 0 <= i < widths.len() && #[trigger] widths[i] > 0 implies 0
            < least_nonzero(widths) <= widths[i] by {
            if i < widths.len() - 1 {
                assert(widths[i] == front[i]);
            }
        }
        if least_nonzero(widths) > 0 {
            if least_nonzero(widths) == widths.last() {
                assert(widths[widths.len() - 1] == least_nonzero(widths));
            } else {
                let i = choose|i: int|
                    0 <= i < front.len() && #[trigger] front[i] == least_nonzero(front);
                assert(widths[i] == front[i]);
            }
        }
    }
}

/// The text of a line before any comment, trailing white space removed.
pub fn clean_line<'a>(line: &'a [char]) -> (r: &'a [char])
    ensures
        r@ == clean(line@),
        r@.len() <= line@.len(),
        r@ == line@.take(r@.len() as int),
{
    let bare = slice_subrange(line, 0, find_pair(line, '/', '/'));
    let r = trimmed_end(bare);
    assert(r@ =~= line@.take(r@.len() as int));
    r
}

/// Splits `text` into its content lines.
pub fn split_lines<'a>(text: &'a [char]) -> (lines: Vec<&'a [char]>)
    ensures
        views(lines@) == content_lines(text@),
        forall|i: int| 0 <= i < lines.len() ==> byte_len(#[trigger] lines[i]@) <= byte_len(text@),
{
    let mut lines: Vec<&'a [char]> = Vec::new();
    let mut pos: usize = 0;
    let mut done = false;
    assert(text@.skip(0) =~= text@);
    assert(views(lines@) =~= Seq::empty());
    assert(Seq::<Seq<char>>::empty() + content_lines(text@) =~= content_lines(text@));
    while !done
        invariant
            pos <= text@.len(),
            content_lines(text@) == views(lines@) + (if done {
                Seq::empty()
            } else {
                content_lines(text@.skip(pos as int))
            }),
            forall|i: int|
                0 <= i < lines.len() ==> byte_len(#[trigger] lines[i]@) <= byte_len(text@),
        decreases
                (if done {
                    0
                } else {
                    1 + text@.len() - pos
                }),
    {
        let rest = slice_subrange(text, pos, text.len());
        let end = find(rest, '\n');
        let line = clean_line(slice_subrange(rest, 0, end));
        let ghost before = views(lines@);
        let ghost tail = text@.skip(pos as int);
        let ghost after = if end < tail.len() {
            content_lines(tail.skip(end + 1))
        } else {
            Seq::empty()
        };
        proof {
            assert(rest@ =~= tail);
            assert(rest@.subrange(0, end as int) =~= tail.take(end as int));
            assert(line@ =~= text@.subrange(pos as int, pos + line@.len()));
            lemma_byte_len_prefix(text@, pos as int);
            lemma_byte_len_prefix(tail, line@.len() as int);
            assert(tail.take(line@.len() as int) =~= line@);
            if end < tail.len() {
                assert(tail.skip(end + 1) =~= text@.skip(pos + end + 1));
            }
        }
        if line.len() > 0 {
            lines.push(line);
            proof {
                assert(views(lines@) =~= before + seq![line@]);
                assert(before + (seq![line@] + after) =~= (before + seq![line@]) + after);
            }
        }
        if end < rest.len() {
            pos = pos + end + 1;
        } else {
            done = true;
            assert(views(lines@) + Seq::<Seq<char>>::empty() =~= views(lines@));
        }
    }
    assert(views(lines@) + Seq::<Seq<char>>::empty() =~= views(lines@));
    lines
}

/// The width of the indentation of `line`, in bytes.
pub fn indent_of(line: &[char]) -> (w: usize)
    requires
        byte_len(line@) <= usize::MAX,
    ensures
        w == indent(line@),
{
    let n = leading(line);
    let mut w: usize = 0;
    let mut i: usize = 0;
    assert(line@.take(0) =~= Seq::<char>::empty());
    while i < n
        invariant
            i <= n <= line@.len(),
            w == byte_len(line@.take(i as int)),
            byte_len(line@) <= usize::MAX,
        decreases n - i,
    {
        proof {
            lemma_byte_len_prefix(line@, i + 1);
            lemma_byte_len_step(line@, i as int);
        }
        w = w + width(line[i]);
        i += 1;
    }
    w
}

/// The smallest of `widths` that is not zero, or zero.
pub fn least_of(widths: &Vec<usize>) -> (least: usize)
    ensures
        least == least_nonzero(nats(widths@)),
{
    let mut least: usize = 0;
    let mut i: usize = 0;
    let ghost all = nats(widths@);
    while i < widths.len()
        invariant
            i <= widths.len(),
            all == nats(widths@),
            least == least_nonzero(all.take(i as int)),
        decreases widths.len() - i,
    {
        assert(all.take(i + 1).drop_last() =~= all.take(i as int));
        assert(all.take(i + 1).last() == widths[i as int] as nat);
        let w = widths[i];
        if w != 0 && (least == 0 || w < least) {
            least = w;
        }
        i += 1;
    }
    assert(all.take(i as int) =~= all);
    least
}

/// Decides whether every width is a whole number of units.
pub fn all_multiples(widths: &Vec<usize>, unit: usize) -> (b: bool)
    requires
        unit > 0,
    ensures
        b == consistent(nats(widths@), unit as nat),
{
    let mut i: usize = 0;
    while i < widths.len()
        invariant
            i <= widths.len(),
            unit > 0,
            forall|j: int| 0 <= j < i ==> #[trigger] nats(widths@)[j] % (unit as nat) == 0,
        decreases widths.len() - i,
    {
        if widths[i] % unit != 0 {
            assert(nats(widths@)[i as int] % (unit as nat) != 0);
            return false;
        }
        i += 1;
    }
    true
}

} // verus!
