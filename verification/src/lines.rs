//! Splitting file content into raw lines on the newline character.
//!
//! The whole text is cut at every `\n`; the pieces are returned in order,
//! none of them holding a newline. Text with a trailing newline therefore
//! yields one extra empty final line, which later fails entry validation
//! harmlessly.

use vstd::prelude::*;

verus! {

/// The views of a sequence of lines.
pub open spec fn line_views(ls: Seq<String>) -> Seq<Seq<char>> {
    ls.map_values(|l: String| l@)
}

/// The text that a sequence of lines came from: the lines joined by `\n`.
pub open spec fn join_lines(ls: Seq<Seq<char>>) -> Seq<char>
    decreases ls.len(),
{
    if ls.len() == 0 {
        Seq::empty()
    } else if ls.len() == 1 {
        ls[0]
    } else {
        join_lines(ls.drop_last()) + seq!['\n'] + ls.last()
    }
}

/// Splits text into raw lines on `\n`.
///
/// The result is the unique decomposition of the text: at least one line,
/// no line holds a newline, and joining the lines with `\n` gives the text
/// back. Text without any newline yields exactly one line, the text itself.
pub fn split_lines(content: &str) -> (r: Vec<String>)
    ensures
        r@.len() >= 1,
        join_lines(line_views(r@)) == content@,
        forall|i: int, j: int|
            0 <= i < r@.len() && 0 <= j < r@[i]@.len() ==> #[trigger] r@[i]@[j] != '\n',
{
    let n = content.unicode_len();
    let mut out: Vec<String> = Vec::new();
    let mut start: usize = 0;
    let mut i: usize = 0;
    while i < n
        invariant
            n == content@.len(),
            start <= i <= n,
            join_lines(line_views(out@).push(content@.subrange(start as int, i as int)))
                == content@.take(i as int),
            forall|k: int, j: int|
                0 <= k < out@.len() && 0 <= j < out@[k]@.len() ==> #[trigger] out@[k]@[j] != '\n',
            forall|j: int| start <= j < i ==> content@[j] != '\n',
        decreases n - i,
    {
        let ghost prev = line_views(out@).push(content@.subrange(start as int, i as int));
        let c = content.get_char(i);
        if c == '\n' {
            let piece = content.substring_char(start, i).to_owned();
            out.push(piece);
            proof {
                let vs = line_views(out@).push(
                    content@.subrange(i as int + 1, i as int + 1),
                );
                assert(line_views(out@) =~= line_views(out@.drop_last()).push(piece@));
                assert(vs.drop_last() =~= prev);
                assert(content@.subrange(i as int + 1, i as int + 1) =~= Seq::<char>::empty());
                assert(join_lines(vs) =~= content@.take(i as int + 1));
            }
            start = i + 1;
        } else {
            proof {
                let vs = line_views(out@).push(content@.subrange(start as int, i as int + 1));
                assert(content@.subrange(start as int, i as int + 1) =~= content@.subrange(
                    start as int,
                    i as int,
                ).push(c));
                assert(vs.drop_last() =~= prev.drop_last());
                assert(join_lines(vs) =~= content@.take(i as int + 1));
            }
        }
        i = i + 1;
    }
    let ghost out_old = out@;
    let last = content.substring_char(start, n).to_owned();
    let ghost lastv = last@;
    out.push(last);
    proof {
        assert(lastv == content@.subrange(start as int, n as int));
        assert(line_views(out@) =~= line_views(out_old).push(lastv));
        assert(content@.take(n as int) =~= content@);
    }
    out
}

} // verus!
