//! Line wrapping for the formatter.
use vstd::prelude::*;
use crate::grammar::symbols::strings_view;
use crate::text::{push_char, push_str};

verus! {

/// The chunks joined by single spaces.
pub open spec fn joined(chunks: Seq<Seq<char>>) -> Seq<char>
    decreases chunks.len(),
{
    if chunks.len() == 0 {
        Seq::empty()
    } else if chunks.len() == 1 {
        chunks[0]
    } else {
        joined(chunks.drop_last()) + seq![' '] + chunks.last()
    }
}

/// The lines finished and the line being filled after the first `n`
/// chunks: each chunk goes on the current line when it fits after a space,
/// else it starts a new line after `cont_indent`. The first chunk always
/// follows `prefix`.
pub open spec fn wrap_state(prefix: Seq<char>, chunks: Seq<Seq<char>>, cont_indent: Seq<char>, max_width: int, n: int) -> (Seq<Seq<char>>, Seq<char>)
    decreases n,
{
    if n <= 0 {
        (Seq::empty(), prefix)
    } else {
        let (lines, current) = wrap_state(prefix, chunks, cont_indent, max_width, n - 1);
        let chunk = chunks[n - 1];
        if n == 1 {
            (lines, current + chunk)
        } else if current.len() + 1 + chunk.len() <= max_width {
            (lines, current + seq![' '] + chunk)
        } else {
            (lines.push(current), cont_indent + chunk)
        }
    }
}

/// The chunks on one line after `prefix` if they fit in `max_width`
/// characters; otherwise wrapped between chunks, continuation lines
/// starting with `cont_indent`. A chunk is never split.
pub open spec fn wrap_chunks_view(prefix: Seq<char>, chunks: Seq<Seq<char>>, cont_indent: Seq<char>, max_width: int) -> Seq<Seq<char>> {
    let single_line = prefix + joined(chunks);
    if single_line.len() <= max_width {
        seq![single_line]
    } else {
        let (lines, current) = wrap_state(prefix, chunks, cont_indent, max_width, chunks.len() as int);
        let all = if current.len() != 0 && current != cont_indent { lines.push(current) } else { lines };
        if all.len() == 0 { seq![single_line] } else { all }
    }
}

/// Appends the chunks joined by single spaces.
pub(crate) fn push_joined(out: &mut String, chunks: &Vec<String>)
    ensures
        final(out)@ == old(out)@ + joined(strings_view(chunks@)),
{
    let ghost start = out@;
    let ghost cv = strings_view(chunks@);
    let mut i: usize = 0;
    while i < chunks.len()
        invariant
            0 <= i <= chunks@.len(),
            cv == strings_view(chunks@),
            out@ == start + joined(cv.take(i as int)),
        decreases chunks@.len() - i,
    {
        proof {
            assert(cv.take(i + 1).drop_last() =~= cv.take(i as int));
            assert(cv.take(i + 1).last() == chunks@[i as int]@);
            assert(cv.take(i + 1).len() == i + 1);
            if i == 0 {
                assert(cv.take(1)[0] == chunks@[0]@);
            }
        }
        if i > 0 {
            push_char(out, ' ');
        }
        push_str(out, chunks[i].as_str());
        proof {
            if i == 0 {
                assert(joined(cv.take(0)) =~= Seq::<char>::empty());
            }
            assert(out@ =~= start + joined(cv.take(i + 1)));
        }
        i += 1;
    }
    assert(cv.take(i as int) =~= cv);
}

/// Whether `a + 1 + b <= max`, computed without overflow.
fn fits(a: usize, b: usize, max: usize) -> (r: bool)
    ensures
        r == (a + 1 + b <= max),
{
    a < max && b <= max - a - 1
}

/// Wraps a sequence of atomic chunks across lines, breaking only between
/// chunks; see `wrap_chunks_view`. Widths count characters.
pub fn wrap_chunks(prefix: &str, chunks: &Vec<String>, cont_indent: &str, max_width: usize) -> (lines: Vec<String>)
    ensures
        strings_view(lines@) == wrap_chunks_view(prefix@, strings_view(chunks@), cont_indent@, max_width as int),
{
    let ghost cv = strings_view(chunks@);
    let mut single_line = String::new();
    push_str(&mut single_line, prefix);
    push_joined(&mut single_line, chunks);
    if single_line.unicode_len() <= max_width {
        let v = vec![single_line];
        assert(strings_view(v@) =~= seq![v@[0]@]);
        return v;
    }
    let mut lines: Vec<String> = Vec::new();
    let mut current = String::new();
    push_str(&mut current, prefix);
    let mut i: usize = 0;
    while i < chunks.len()
        invariant
            0 <= i <= chunks@.len(),
            cv == strings_view(chunks@),
            (strings_view(lines@), current@) == wrap_state(prefix@, cv, cont_indent@, max_width as int, i as int),
        decreases chunks@.len() - i,
    {
        let chunk = &chunks[i];
        assert(cv[i as int] == chunk@);
        if i == 0 {
            push_str(&mut current, chunk.as_str());
        } else if fits(current.unicode_len(), chunk.unicode_len(), max_width) {
            push_char(&mut current, ' ');
            push_str(&mut current, chunk.as_str());
        } else {
            let mut next = String::new();
            push_str(&mut next, cont_indent);
            push_str(&mut next, chunk.as_str());
            let ghost before = strings_view(lines@);
            let mut done = next;
            std::mem::swap(&mut current, &mut done);
            lines.push(done);
            assert(strings_view(lines@) =~= before.push(done@));
        }
        proof {
            assert(current@ =~= wrap_state(prefix@, cv, cont_indent@, max_width as int, i + 1).1);
        }
        i += 1;
    }
    if current.unicode_len() != 0 && !crate::text::str_eq(current.as_str(), cont_indent) {
        let ghost before = strings_view(lines@);
        let ghost cur_view = current@;
        lines.push(current);
        assert(strings_view(lines@) =~= before.push(cur_view));
    }
    if lines.len() == 0 {
        let v = vec![single_line];
        assert(strings_view(v@) =~= seq![v@[0]@]);
        v
    } else {
        lines
    }
}

/// Whether `line` is `lead` followed by a single one of `chunks`.
pub open spec fn one_chunk_line(line: Seq<char>, lead: Seq<char>, chunks: Seq<Seq<char>>) -> bool {
    exists|k: int| 0 <= k < chunks.len() && line == lead + #[trigger] chunks[k]
}

/// Whether a line respects the width: it fits in `max_width` characters, or
/// it holds one chunk alone after its lead, a chunk that no break can split.
pub open spec fn line_within_width(line: Seq<char>, prefix: Seq<char>, cont_indent: Seq<char>, chunks: Seq<Seq<char>>, max_width: int) -> bool {
    line.len() <= max_width || one_chunk_line(line, prefix, chunks) || one_chunk_line(line, cont_indent, chunks)
}

/// Whether the break after `line` was forced: the line after starts with a
/// chunk after `cont_indent`, and that chunk did not fit after a space on
/// `line`.
pub open spec fn forced_break(line: Seq<char>, next: Seq<char>, cont_indent: Seq<char>, chunks: Seq<Seq<char>>, max_width: int) -> bool {
    exists|k: int| 0 <= k < chunks.len()
        && next.len() >= cont_indent.len() + chunks[k].len()
        && next.take((cont_indent.len() + chunks[k].len()) as int) == cont_indent + #[trigger] chunks[k]
        && line.len() + 1 + chunks[k].len() > max_width
}

proof fn lemma_wrap_state_laws(prefix: Seq<char>, chunks: Seq<Seq<char>>, cont_indent: Seq<char>, max_width: int, n: int)
    requires
        1 <= n <= chunks.len(),
    ensures
        ({
            let (lines, current) = wrap_state(prefix, chunks, cont_indent, max_width, n);
            &&& line_within_width(current, prefix, cont_indent, chunks, max_width)
            &&& forall|j: int| 0 <= j < lines.len() ==> line_within_width(#[trigger] lines[j], prefix, cont_indent, chunks, max_width)
            &&& forall|j: int| 0 <= j < lines.len() ==> forced_break(#[trigger] lines[j],
                    if j + 1 < lines.len() { lines[j + 1] } else { current }, cont_indent, chunks, max_width)
        }),
    decreases n,
{
    let chunk = chunks[n - 1];
    if n == 1 {
        let (lines, current) = wrap_state(prefix, chunks, cont_indent, max_width, 0);
        assert(current + chunk == prefix + chunks[0]);
    } else {
        lemma_wrap_state_laws(prefix, chunks, cont_indent, max_width, n - 1);
        let (lines, current) = wrap_state(prefix, chunks, cont_indent, max_width, n - 1);
        if current.len() + 1 + chunk.len() <= max_width {
            let cur2 = current + seq![' '] + chunk;
            if lines.len() > 0 {
                let j0 = lines.len() - 1;
                assert(forced_break(lines[j0], current, cont_indent, chunks, max_width));
                let k = choose|k: int| 0 <= k < chunks.len()
                    && current.len() >= cont_indent.len() + chunks[k].len()
                    && current.take((cont_indent.len() + chunks[k].len()) as int) == cont_indent + #[trigger] chunks[k]
                    && lines[j0].len() + 1 + chunks[k].len() > max_width;
                assert(cur2.take((cont_indent.len() + chunks[k].len()) as int) =~= current.take((cont_indent.len() + chunks[k].len()) as int));
                assert(forced_break(lines[j0], cur2, cont_indent, chunks, max_width));
            }
        } else {
            let lines2 = lines.push(current);
            let cur2 = cont_indent + chunk;
            assert(cur2 == cont_indent + chunks[n - 1]);
            assert(cur2.take((cont_indent.len() + chunks[n - 1].len()) as int) =~= cont_indent + chunks[n - 1]);
            assert(forced_break(current, cur2, cont_indent, chunks, max_width));
            assert forall|j: int| 0 <= j < lines2.len() implies forced_break(#[trigger] lines2[j],
                if j + 1 < lines2.len() { lines2[j + 1] } else { cur2 }, cont_indent, chunks, max_width) by {
                if j < lines.len() {
                    assert(lines2[j] == lines[j]);
                    if j + 1 < lines.len() {
                        assert(lines2[j + 1] == lines[j + 1]);
                    } else {
                        assert(lines2[j + 1] == current);
                    }
                }
            }
            assert forall|j: int| 0 <= j < lines2.len() implies line_within_width(#[trigger] lines2[j], prefix, cont_indent, chunks, max_width) by {
                if j < lines.len() {
                    assert(lines2[j] == lines[j]);
                }
            }
        }
    }
}

/// Wrapping is greedy and keeps to the width. Either the chunks stand on one
/// line, or every line fits in `max_width` characters or holds a single
/// chunk after its lead; and each break is forced: the line after a break
/// starts with a chunk (after `cont_indent`) that did not fit after a space
/// on the line before.
pub proof fn wrapping_is_greedy_and_bounded(prefix: Seq<char>, chunks: Seq<Seq<char>>, cont_indent: Seq<char>, max_width: int)
    ensures
        ({
            let w = wrap_chunks_view(prefix, chunks, cont_indent, max_width);
            &&& w == seq![prefix + joined(chunks)]
                || forall|j: int| 0 <= j < w.len() ==> line_within_width(#[trigger] w[j], prefix, cont_indent, chunks, max_width)
            &&& forall|j: int| 0 <= j < w.len() - 1 ==> forced_break(#[trigger] w[j], w[j + 1], cont_indent, chunks, max_width)
        }),
{
    let w = wrap_chunks_view(prefix, chunks, cont_indent, max_width);
    let single_line = prefix + joined(chunks);
    if single_line.len() > max_width && chunks.len() >= 1 {
        lemma_wrap_state_laws(prefix, chunks, cont_indent, max_width, chunks.len() as int);
        let (lines, current) = wrap_state(prefix, chunks, cont_indent, max_width, chunks.len() as int);
        if current.len() != 0 && current != cont_indent {
            let all = lines.push(current);
            assert forall|j: int| 0 <= j < all.len() - 1 implies forced_break(#[trigger] all[j], all[j + 1], cont_indent, chunks, max_width) by {
                assert(all[j] == lines[j]);
                if j + 1 < lines.len() {
                    assert(all[j + 1] == lines[j + 1]);
                }
            }
            assert forall|j: int| 0 <= j < all.len() implies line_within_width(#[trigger] all[j], prefix, cont_indent, chunks, max_width) by {
                if j < lines.len() {
                    assert(all[j] == lines[j]);
                }
            }
        } else if lines.len() > 0 {
            assert forall|j: int| 0 <= j < lines.len() - 1 implies forced_break(#[trigger] lines[j], lines[j + 1], cont_indent, chunks, max_width) by {
                assert(j + 1 < lines.len());
            }
        }
    } else if single_line.len() > max_width {
        let (lines, current) = wrap_state(prefix, chunks, cont_indent, max_width, 0);
        assert(lines.len() == 0);
    }
}

/// Whether `lines` are the chunks cut at `cuts` into consecutive runs, each
/// run joined by single spaces after its lead: `prefix` for the first line,
/// `cont_indent` for the others.
pub open spec fn lines_are_runs(lines: Seq<Seq<char>>, prefix: Seq<char>, cont_indent: Seq<char>, chunks: Seq<Seq<char>>, cuts: Seq<int>) -> bool {
    &&& cuts.len() == lines.len() + 1
    &&& cuts[0] == 0
    &&& cuts[lines.len() as int] == chunks.len()
    &&& forall|i: int, j: int| 0 <= i < j <= lines.len() ==> cuts[i] < cuts[j]
    &&& forall|k: int| 0 <= k < lines.len() ==> #[trigger] lines[k] == (if k == 0 { prefix } else { cont_indent })
            + joined(chunks.subrange(cuts[k], cuts[k + 1]))
}

/// The lead of line `k`.
spec fn lead(k: int, prefix: Seq<char>, cont_indent: Seq<char>) -> Seq<char> {
    if k == 0 { prefix } else { cont_indent }
}

proof fn lemma_joined_step(s: Seq<Seq<char>>, a: int, n: int)
    requires
        0 <= a < n < s.len(),
    ensures
        joined(s.subrange(a, n + 1)) == joined(s.subrange(a, n)) + seq![' '] + s[n],
{
    let t = s.subrange(a, n + 1);
    assert(t.drop_last() =~= s.subrange(a, n));
    assert(t.last() == s[n]);
}

/// The finished lines and the current line after `n` chunks are runs of
/// the chunks; the current line holds the run from the last cut to `n`.
proof fn lemma_wrap_state_runs(prefix: Seq<char>, chunks: Seq<Seq<char>>, cont_indent: Seq<char>, max_width: int, n: int) -> (cuts: Seq<int>)
    requires
        1 <= n <= chunks.len(),
    ensures
        ({
            let (lines, current) = wrap_state(prefix, chunks, cont_indent, max_width, n);
            &&& cuts.len() == lines.len() + 1
            &&& cuts[0] == 0
            &&& cuts[lines.len() as int] < n
            &&& forall|i: int, j: int| 0 <= i < j <= lines.len() ==> cuts[i] < cuts[j]
            &&& forall|k: int| 0 <= k < lines.len() ==> #[trigger] lines[k] == lead(k, prefix, cont_indent)
                    + joined(chunks.subrange(cuts[k], cuts[k + 1]))
            &&& current == lead(lines.len() as int, prefix, cont_indent) + joined(chunks.subrange(cuts[lines.len() as int], n))
        }),
    decreases n,
{
    if n == 1 {
        let s1 = chunks.subrange(0, 1);
        assert(joined(s1) == chunks[0]);
        seq![0int]
    } else {
        let cuts = lemma_wrap_state_runs(prefix, chunks, cont_indent, max_width, n - 1);
        let (lines, current) = wrap_state(prefix, chunks, cont_indent, max_width, n - 1);
        let chunk = chunks[n - 1];
        let c = cuts[lines.len() as int];
        if current.len() + 1 + chunk.len() <= max_width {
            lemma_joined_step(chunks, c, n - 1);
            assert((current + seq![' '] + chunk) =~= lead(lines.len() as int, prefix, cont_indent)
                + joined(chunks.subrange(c, n)));
            cuts
        } else {
            let lines2 = lines.push(current);
            let cuts2 = cuts.push(n - 1);
            assert(joined(chunks.subrange(n - 1, n)) == chunk) by {
                assert(chunks.subrange(n - 1, n)[0] == chunk);
            }
            assert forall|i: int, j: int| 0 <= i < j <= lines2.len() implies cuts2[i] < cuts2[j] by {
                assert(cuts2[i] == cuts[i]);
                if j < lines2.len() {
                    assert(cuts2[j] == cuts[j]);
                } else {
                    if i < lines.len() {
                        assert(cuts[i] < cuts[lines.len() as int]);
                    }
                }
            }
            assert forall|k: int| 0 <= k < lines2.len() implies #[trigger] lines2[k] == lead(k, prefix, cont_indent)
                + joined(chunks.subrange(cuts2[k], cuts2[k + 1])) by {
                if k < lines.len() {
                    assert(lines2[k] == lines[k]);
                    assert(cuts2[k] == cuts[k] && cuts2[k + 1] == cuts[k + 1]);
                } else {
                    assert(lines2[k] == current);
                }
            }
            assert(lead(lines2.len() as int, prefix, cont_indent) == cont_indent);
            cuts2
        }
    }
}

proof fn lemma_joined_nonempty(s: Seq<Seq<char>>)
    requires
        s.len() >= 1,
        forall|i: int| 0 <= i < s.len() ==> (#[trigger] s[i]).len() >= 1,
    ensures
        joined(s).len() >= 1,
{
    if s.len() == 1 {
        assert(s[0].len() >= 1);
    }
}

/// Wrapping only cuts between chunks: the lines are the chunks in their
/// order, cut into consecutive runs, each joined by single spaces after its
/// lead. Every chunk must be non-empty (an empty last chunk on a line of its
/// own is dropped) and there must be one at least.
pub proof fn wrapped_lines_are_runs_of_chunks(prefix: Seq<char>, chunks: Seq<Seq<char>>, cont_indent: Seq<char>, max_width: int)
    requires
        chunks.len() >= 1,
        forall|i: int| 0 <= i < chunks.len() ==> (#[trigger] chunks[i]).len() >= 1,
    ensures
        exists|cuts: Seq<int>| lines_are_runs(wrap_chunks_view(prefix, chunks, cont_indent, max_width), prefix, cont_indent, chunks, cuts),
{
    let w = wrap_chunks_view(prefix, chunks, cont_indent, max_width);
    let single = prefix + joined(chunks);
    let all_one = seq![0int, chunks.len() as int];
    assert(chunks.subrange(0, chunks.len() as int) =~= chunks);
    if single.len() <= max_width {
        assert(lines_are_runs(w, prefix, cont_indent, chunks, all_one));
    } else {
        let n = chunks.len() as int;
        let cuts = lemma_wrap_state_runs(prefix, chunks, cont_indent, max_width, n);
        let (lines, current) = wrap_state(prefix, chunks, cont_indent, max_width, n);
        let c = cuts[lines.len() as int];
        let rest = chunks.subrange(c, n);
        assert forall|i: int| 0 <= i < rest.len() implies (#[trigger] rest[i]).len() >= 1 by {
            assert(rest[i] == chunks[c + i]);
        }
        lemma_joined_nonempty(rest);
        if current.len() != 0 && current != cont_indent {
            let all = lines.push(current);
            let cuts2 = cuts.push(n);
            assert(w == all);
            assert forall|i: int, j: int| 0 <= i < j <= all.len() implies cuts2[i] < cuts2[j] by {
                assert(cuts2[i] == cuts[i]);
                if j < all.len() {
                    assert(cuts2[j] == cuts[j]);
                } else {
                    if i < lines.len() {
                        assert(cuts[i] < cuts[lines.len() as int]);
                    }
                }
            }
            assert forall|k: int| 0 <= k < all.len() implies #[trigger] all[k] == (if k == 0 { prefix } else { cont_indent })
                + joined(chunks.subrange(cuts2[k], cuts2[k + 1])) by {
                if k < lines.len() {
                    assert(all[k] == lines[k]);
                    assert(cuts2[k] == cuts[k] && cuts2[k + 1] == cuts[k + 1]);
                } else {
                    assert(all[k] == current);
                }
            }
            assert(lines_are_runs(w, prefix, cont_indent, chunks, cuts2));
        } else {
            assert(lines.len() == 0) by {
                if lines.len() > 0 {
                    assert(current.len() > cont_indent.len());
                }
            }
            assert(w == seq![single]);
            assert(lines_are_runs(w, prefix, cont_indent, chunks, all_one));
        }
    }
}

} // verus!
