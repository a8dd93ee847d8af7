use vstd::prelude::*;

verus! {

/// The one character at which a line may be broken.
pub const SPACE: char = ' ';

/// Whether a line may be broken in front of the character at `e`: a word
/// begins there, after at least one space. The spaces stay on the line that
/// the break ends.
pub open spec fn is_break_opportunity(p: Seq<char>, e: int) -> bool {
    0 < e < p.len() && p[e - 1] == SPACE && p[e] != SPACE
}

/// Whether a line can end in front of `e`: at a break opportunity, or at the
/// end of the paragraph.
pub open spec fn is_stop(p: Seq<char>, e: int) -> bool {
    e == p.len() || is_break_opportunity(p, e)
}

/// The first place behind `from` at which a line can end.
pub open spec fn stop_after(p: Seq<char>, from: int) -> int
    decreases p.len() - from,
{
    if from + 1 >= p.len() {
        p.len() as int
    } else if is_break_opportunity(p, from + 1) {
        from + 1
    } else {
        stop_after(p, from + 1)
    }
}

/// The number of characters of a line that count against the budget: all but
/// the spaces at its end.
pub open spec fn visible_len(line: Seq<char>) -> nat
    decreases line.len(),
{
    if line.len() == 0 {
        0
    } else if line.last() == SPACE {
        visible_len(line.drop_last())
    } else {
        line.len()
    }
}

/// Whether the stretch of `p` from `start` to `e` is within the budget.
pub open spec fn fits(p: Seq<char>, start: int, e: int, budget: int) -> bool {
    visible_len(p.subrange(start, e)) <= budget
}

/// The budget that wrapping works with: one at least, so that every word
/// gets a line whatever was asked for.
pub open spec fn effective_budget(budget: int) -> int {
    if budget < 1 {
        1
    } else {
        budget
    }
}

/// Where a line that begins at `start` and so far ends at `e` ends once it
/// has taken every further word that keeps it within the budget.
pub open spec fn extended(p: Seq<char>, start: int, e: int, budget: int) -> int
    decreases p.len() - e,
{
    let further = stop_after(p, e);
    if e < further <= p.len() && fits(p, start, further, budget) {
        extended(p, start, further, budget)
    } else {
        e
    }
}

/// Where the line that begins at `start` ends. It always takes its first
/// word, however long, and then as many more as the budget allows.
pub open spec fn line_end_from(p: Seq<char>, start: int, budget: int) -> int {
    extended(p, start, stop_after(p, start), budget)
}

/// The display lines of `p` from `start` on.
pub open spec fn wrapped_from(p: Seq<char>, start: int, budget: int) -> Seq<Seq<char>>
    decreases p.len() - start,
{
    let e = line_end_from(p, start, budget);
    if 0 <= start < e && e < p.len() {
        seq![p.subrange(start, e)] + wrapped_from(p, e, budget)
    } else if 0 <= start <= p.len() {
        seq![p.subrange(start, p.len() as int)]
    } else {
        seq![Seq::empty()]
    }
}

/// The display lines of a paragraph under a budget: what greedy packing of
/// its words gives. Their concatenation is the paragraph itself.
pub open spec fn wrapped_lines(p: Seq<char>, budget: int) -> Seq<Seq<char>> {
    wrapped_from(p, 0, effective_budget(budget))
}

/// Whether a line is one word and nothing else, but for spaces at its end.
pub open spec fn is_lone_word(line: Seq<char>) -> bool {
    visible_len(line) > 0 && forall|j: int| 0 <= j < visible_len(line) ==> line[j] != SPACE
}

/// What holds of every display line: it is within the budget, or it is a
/// single word that is longer than the budget and could not be placed
/// otherwise.
pub open spec fn line_within_budget(line: Seq<char>, budget: int) -> bool {
    visible_len(line) <= budget || is_lone_word(line)
}

/// The views of a list of lines.
pub open spec fn line_views(lines: Seq<Vec<char>>) -> Seq<Seq<char>> {
    lines.map_values(|line: Vec<char>| line@)
}

/// The visible part of a line ends with a character that is no space, and
/// only spaces follow it.
pub proof fn lemma_visible_len(line: Seq<char>)
    ensures
        visible_len(line) <= line.len(),
        visible_len(line) > 0 ==> line[visible_len(line) - 1] != SPACE,
        forall|j: int| visible_len(line) <= j < line.len() ==> line[j] == SPACE,
    decreases line.len(),
{
    if line.len() > 0 && line.last() == SPACE {
        let head = line.drop_last();
        lemma_visible_len(head);
        assert forall|j: int| visible_len(line) <= j < line.len() implies line[j] == SPACE by {
            if j < head.len() {
                assert(head[j] == SPACE);
            }
        }
    }
}

/// A longer stretch from the same start has no shorter visible part.
pub proof fn lemma_visible_len_monotone(p: Seq<char>, start: int, e1: int, e2: int)
    requires
        0 <= start <= e1 <= e2 <= p.len(),
    ensures
        visible_len(p.subrange(start, e1)) <= visible_len(p.subrange(start, e2)),
    decreases e2 - e1,
{
    if e1 < e2 {
        let long = p.subrange(start, e2);
        assert(long.drop_last() == p.subrange(start, e2 - 1));
        lemma_visible_len_monotone(p, start, e1, e2 - 1);
        lemma_visible_len(p.subrange(start, e2 - 1));
    }
}

/// The stop behind `from` lies behind it, a line can end there, and none
/// can end in between.
pub proof fn lemma_stop_after(p: Seq<char>, from: int)
    requires
        0 <= from < p.len(),
    ensures
        from < stop_after(p, from) <= p.len(),
        is_stop(p, stop_after(p, from)),
        forall|e: int| from < e < stop_after(p, from) ==> !is_stop(p, e),
    decreases p.len() - from,
{
    if from + 1 < p.len() && !is_break_opportunity(p, from + 1) {
        lemma_stop_after(p, from + 1);
    }
}

/// Extending a line keeps its end at a stop, and leaves it within the budget
/// unless it still ends where it began to be extended.
pub proof fn lemma_extended(p: Seq<char>, start: int, e: int, budget: int)
    requires
        0 <= start < e <= p.len(),
        is_stop(p, e),
    ensures
        e <= extended(p, start, e, budget) <= p.len(),
        is_stop(p, extended(p, start, e, budget)),
        extended(p, start, e, budget) == e || fits(p, start, extended(p, start, e, budget), budget),
        extended(p, start, e, budget) == p.len() || !fits(
            p,
            start,
            stop_after(p, extended(p, start, e, budget)),
            budget,
        ),
    decreases p.len() - e,
{
    if e < p.len() {
        lemma_stop_after(p, e);
        let further = stop_after(p, e);
        if fits(p, start, further, budget) {
            lemma_extended(p, start, further, budget);
        }
    }
}

/// A line ends behind its start, at a stop, and is greedy: the next word
/// would take it over the budget.
pub proof fn lemma_line_end_from(p: Seq<char>, start: int, budget: int)
    requires
        0 <= start < p.len(),
    ensures
        start < line_end_from(p, start, budget) <= p.len(),
        is_stop(p, line_end_from(p, start, budget)),
        line_end_from(p, start, budget) == stop_after(p, start) || fits(
            p,
            start,
            line_end_from(p, start, budget),
            budget,
        ),
        line_end_from(p, start, budget) == p.len() || !fits(
            p,
            start,
            stop_after(p, line_end_from(p, start, budget)),
            budget,
        ),
{
    lemma_stop_after(p, start);
    lemma_extended(p, start, stop_after(p, start), budget);
}

/// A line is packed as full as it can be: at no stop behind its end would
/// it still be within the budget.
pub proof fn lemma_line_is_greedy(p: Seq<char>, start: int, budget: int, e: int)
    requires
        0 <= start < p.len(),
        line_end_from(p, start, budget) < e <= p.len(),
        is_stop(p, e),
    ensures
        !fits(p, start, e, budget),
{
    lemma_line_end_from(p, start, budget);
    let end = line_end_from(p, start, budget);
    lemma_stop_after(p, end);
    lemma_visible_len_monotone(p, start, stop_after(p, end), e);
}

/// The stretch up to the first stop is spaces alone, or one word with the
/// spaces behind it.
pub proof fn lemma_first_stretch(p: Seq<char>, start: int)
    requires
        0 <= start < p.len(),
        start == 0 || is_break_opportunity(p, start),
    ensures
        visible_len(p.subrange(start, stop_after(p, start))) == 0 || is_lone_word(
            p.subrange(start, stop_after(p, start)),
        ),
{
    lemma_stop_after(p, start);
    let e = stop_after(p, start);
    let line = p.subrange(start, e);
    lemma_visible_len(line);
    let v = visible_len(line) as int;
    if v > 0 {
        assert forall|j: int| 0 <= j < v implies line[j] != SPACE by {
            if line[j] == SPACE {
                let k = lemma_word_behind(line, j, v - 1);
                assert(is_break_opportunity(p, start + k));
                assert(is_stop(p, start + k));
            }
        }
    }
}

/// Between a space and a later character that is none, a word begins.
proof fn lemma_word_behind(line: Seq<char>, j: int, w: int) -> (k: int)
    requires
        0 <= j < w < line.len(),
        line[j] == SPACE,
        line[w] != SPACE,
    ensures
        j < k <= w,
        line[k - 1] == SPACE,
        line[k] != SPACE,
    decreases w - j,
{
    if line[j + 1] != SPACE {
        j + 1
    } else {
        lemma_word_behind(line, j + 1, w)
    }
}

/// From the start of the paragraph or of a word on, wrapping gives at least
/// one line, the lines put end to end are the rest of the paragraph, and each
/// is within the budget or is a single word too long for it.
pub proof fn lemma_wrapped_from_budget(p: Seq<char>, start: int, budget: int)
    requires
        0 <= start <= p.len(),
        start == 0 || is_break_opportunity(p, start),
        budget >= 0,
    ensures
        wrapped_from(p, start, budget).len() >= 1,
        forall|i: int|
            0 <= i < wrapped_from(p, start, budget).len() ==> line_within_budget(
                #[trigger] wrapped_from(p, start, budget)[i],
                budget,
            ),
        wrapped_from(p, start, budget).flatten() == p.subrange(start, p.len() as int),
    decreases p.len() - start,
{
    let lines = wrapped_from(p, start, budget);
    let e = line_end_from(p, start, budget);
    if start < p.len() {
        lemma_line_end_from(p, start, budget);
        lemma_first_stretch(p, start);
        let first = p.subrange(start, e);
        assert(line_within_budget(first, budget));
        if e < p.len() {
            lemma_wrapped_from_budget(p, e, budget);
            let rest = wrapped_from(p, e, budget);
            assert(lines == seq![first] + rest);
            assert forall|i: int| 0 <= i < lines.len() implies line_within_budget(
                #[trigger] lines[i],
                budget,
            ) by {
                if i > 0 {
                    assert(lines[i] == rest[i - 1]);
                }
            }
            assert(lines.drop_first() == rest);
            assert(lines.first() == first);
            assert(lines.flatten() == first + rest.flatten());
            assert(first + p.subrange(e, p.len() as int) == p.subrange(start, p.len() as int));
        } else {
            assert(lines == seq![first]);
            lemma_flatten_one(first);
        }
    } else {
        let last = p.subrange(start, p.len() as int);
        assert(lines == seq![last]);
        assert(visible_len(last) == 0);
        lemma_flatten_one(last);
    }
}

/// One line put end to end with nothing is that line.
proof fn lemma_flatten_one(line: Seq<char>)
    ensures
        seq![line].flatten() == line,
{
    let lines = seq![line];
    assert(lines.drop_first() == Seq::<Seq<char>>::empty());
    assert(lines.drop_first().flatten() == Seq::<char>::empty());
    assert(lines.first() == line);
    assert(lines.flatten() == line + Seq::<char>::empty());
    assert(line + Seq::<char>::empty() == line);
}

/// Wrapping gives at least one line, the lines put end to end are the
/// paragraph, and each line is within the budget or is a single word too
/// long for it.
pub proof fn lemma_wrapped_lines(p: Seq<char>, budget: int)
    ensures
        wrapped_lines(p, budget).len() >= 1,
        wrapped_lines(p, budget).flatten() == p,
        forall|i: int|
            0 <= i < wrapped_lines(p, budget).len() ==> line_within_budget(
                #[trigger] wrapped_lines(p, budget)[i],
                effective_budget(budget),
            ),
{
    lemma_wrapped_from_budget(p, 0, effective_budget(budget));
    assert(p.subrange(0, p.len() as int) == p);
}

/// Every display line is a stretch of the paragraph, so each of its
/// characters is one of the paragraph's.
pub proof fn lemma_wrapped_from_chars(p: Seq<char>, start: int, budget: int)
    requires
        0 <= start <= p.len(),
    ensures
        forall|i: int, j: int|
            0 <= i < wrapped_from(p, start, budget).len() && 0 <= j < wrapped_from(
                p,
                start,
                budget,
            )[i].len() ==> p.contains(#[trigger] wrapped_from(p, start, budget)[i][j]),
    decreases p.len() - start,
{
    let lines = wrapped_from(p, start, budget);
    let e = line_end_from(p, start, budget);
    if start < e && e < p.len() {
        lemma_wrapped_from_chars(p, e, budget);
        let rest = wrapped_from(p, e, budget);
        assert forall|i: int, j: int| 0 <= i < lines.len() && 0 <= j < lines[i].len() implies p.contains(
         #[trigger] lines[i][j]) by {
            if i == 0 {
                assert(lines[i][j] == p[start + j]);
            } else {
                assert(lines[i] == rest[i - 1]);
                assert(p.contains(rest[i - 1][j]));
            }
        }
    } else {
        assert forall|i: int, j: int| 0 <= i < lines.len() && 0 <= j < lines[i].len() implies p.contains(
         #[trigger] lines[i][j]) by {
            assert(lines[i][j] == p[start + j]);
        }
    }
}

/// A paragraph that is within the budget as it stands is its own single
/// display line.
pub proof fn lemma_short_paragraph_unchanged(p: Seq<char>, budget: int)
    requires
        p.len() <= effective_budget(budget),
    ensures
        wrapped_lines(p, budget) == seq![p],
{
    let b = effective_budget(budget);
    assert(p.subrange(0, p.len() as int) == p);
    if p.len() > 0 {
        lemma_stop_after(p, 0);
        lemma_extended_short(p, stop_after(p, 0), b);
    }
}

/// A first line of a paragraph that is within the budget takes all of it.
proof fn lemma_extended_short(p: Seq<char>, e: int, budget: int)
    requires
        p.len() <= budget,
        0 < e <= p.len(),
        is_stop(p, e),
    ensures
        extended(p, 0, e, budget) == p.len(),
    decreases p.len() - e,
{
    if e < p.len() {
        lemma_stop_after(p, e);
        let further = stop_after(p, e);
        lemma_visible_len(p.subrange(0, further));
        lemma_extended_short(p, further, budget);
    }
}

/// Finds the first place behind `from` at which a line can end.
pub fn next_stop(text: &Vec<char>, from: usize) -> (e: usize)
    ensures
        e == stop_after(text@, from as int),
        e <= text.len(),
        from < text.len() ==> from < e,
{
    let n = text.len();
    if from >= n {
        return n;
    }
    let mut e: usize = from + 1;
    while e < n && !(text[e - 1] == SPACE && text[e] != SPACE)
        invariant
            from < e <= n,
            n == text.len(),
            stop_after(text@, from as int) == stop_after(text@, e - 1),
        decreases n - e,
    {
        e += 1;
    }
    e
}

/// Counts the characters between `start` and `end` that count against the
/// budget: all but the spaces in front of `end`.
pub fn measure(text: &Vec<char>, start: usize, end: usize) -> (len: usize)
    requires
        start <= end <= text.len(),
    ensures
        len == visible_len(text@.subrange(start as int, end as int)),
{
    let mut k: usize = end;
    while k > start && text[k - 1] == SPACE
        invariant
            start <= k <= end <= text.len(),
            visible_len(text@.subrange(start as int, end as int)) == visible_len(
                text@.subrange(start as int, k as int),
            ),
        decreases k,
    {
        proof {
            let line = text@.subrange(start as int, k as int);
            assert(line.drop_last() == text@.subrange(start as int, k - 1));
        }
        k -= 1;
    }
    k - start
}

/// Finds where the line that begins at `start` ends under `budget`.
pub fn line_end(text: &Vec<char>, start: usize, budget: usize) -> (e: usize)
    ensures
        e == line_end_from(text@, start as int, budget as int),
        e <= text.len(),
        start < text.len() ==> start < e,
{
    let n = text.len();
    let mut e: usize = next_stop(text, start);
    if start >= n {
        return e;
    }
    proof {
        lemma_stop_after(text@, start as int);
    }
    while e < n
        invariant
            start < e <= n,
            n == text.len(),
            is_stop(text@, e as int),
            line_end_from(text@, start as int, budget as int) == extended(
                text@,
                start as int,
                e as int,
                budget as int,
            ),
        decreases n - e,
    {
        let further = next_stop(text, e);
        proof {
            lemma_stop_after(text@, e as int);
        }
        if measure(text, start, further) <= budget {
            e = further;
        } else {
            return e;
        }
    }
    e
}

/// Copies the characters from `from` up to `to`.
pub fn copy_range(text: &Vec<char>, from: usize, to: usize) -> (out: Vec<char>)
    requires
        from <= to <= text.len(),
    ensures
        out@ == text@.subrange(from as int, to as int),
{
    let mut out: Vec<char> = Vec::new();
    let mut i: usize = from;
    while i < to
        invariant
            from <= i <= to <= text.len(),
            out@ == text@.subrange(from as int, i as int),
        decreases to - i,
    {
        out.push(text[i]);
        proof {
            assert(text@.subrange(from as int, i as int).push(text@[i as int]) == text@.subrange(
                from as int,
                i + 1,
            ));
        }
        i += 1;
    }
    out
}

/// Breaks one paragraph into display lines by greedy packing of its words.
/// A budget below one counts as one. No character is lost or added: the
/// lines put end to end are the paragraph, and the spaces at which a line was
/// broken stay at its end, where they do not count against the budget.
pub fn wrap(paragraph: &Vec<char>, budget: usize) -> (lines: Vec<Vec<char>>)
    ensures
        line_views(lines@) == wrapped_lines(paragraph@, budget as int),
        lines.len() >= 1,
        line_views(lines@).flatten() == paragraph@,
        forall|i: int|
            0 <= i < lines.len() ==> line_within_budget(
                (#[trigger] lines[i])@,
                effective_budget(budget as int),
            ),
{
    let b: usize = if budget < 1 { 1 } else { budget };
    let n = paragraph.len();
    let mut lines: Vec<Vec<char>> = Vec::new();
    let mut start: usize = 0;
    loop
        invariant
            0 <= start <= n,
            n == paragraph.len(),
            b == effective_budget(budget as int),
            line_views(lines@) + wrapped_from(paragraph@, start as int, b as int) == wrapped_lines(
                paragraph@,
                budget as int,
            ),
        decreases n - start,
    {
        let e = line_end(paragraph, start, b);
        let ghost before = line_views(lines@);
        let ghost rest = wrapped_from(paragraph@, start as int, b as int);
        if start < e && e < n {
            let line = copy_range(paragraph, start, e);
            lines.push(line);
            proof {
                let tail = wrapped_from(paragraph@, e as int, b as int);
                assert(rest == seq![line@] + tail);
                assert(line_views(lines@) == before.push(line@));
                assert(before.push(line@) + tail == before + (seq![line@] + tail));
            }
            start = e;
        } else {
            let line = copy_range(paragraph, start, n);
            lines.push(line);
            proof {
                assert(rest == seq![line@]);
                assert(line_views(lines@) == before.push(line@));
                assert(before.push(line@) == before + seq![line@]);
                lemma_wrapped_lines(paragraph@, budget as int);
                assert forall|i: int| 0 <= i < lines.len() implies line_within_budget(
                    (#[trigger] lines[i])@,
                    effective_budget(budget as int),
                ) by {
                    assert(line_views(lines@)[i] == lines[i]@);
                }
            }
            return lines;
        }
    }
}

} // verus!
