use crate::normalize::LINE_FEED;
use crate::wrap::line_views;
use vstd::prelude::*;

verus! {

/// The paragraphs of a text: the stretches between its line feeds, in order.
/// A text with `n` line feeds has `n + 1` paragraphs, some of them empty.
pub open spec fn paragraphs(s: Seq<char>) -> Seq<Seq<char>>
    decreases s.len(),
{
    if s.len() == 0 {
        seq![Seq::empty()]
    } else {
        let head = paragraphs(s.drop_last());
        if s.last() == LINE_FEED {
            head.push(Seq::empty())
        } else {
            head.drop_last().push(head.last().push(s.last()))
        }
    }
}

/// The parts put end to end with `sep` between each two.
pub open spec fn joined(parts: Seq<Seq<char>>, sep: Seq<char>) -> Seq<char>
    decreases parts.len(),
{
    if parts.len() == 0 {
        Seq::empty()
    } else if parts.len() == 1 {
        parts[0]
    } else {
        joined(parts.drop_last(), sep) + sep + parts.last()
    }
}

/// What stands between two paragraphs: one line feed.
pub open spec fn hard_break() -> Seq<char> {
    seq![LINE_FEED]
}

/// A text has a paragraph, no paragraph holds a line feed, each character of
/// a paragraph is one of the text's, and the paragraphs joined by line feeds
/// are the text again.
pub proof fn lemma_paragraphs(s: Seq<char>)
    ensures
        paragraphs(s).len() >= 1,
        forall|i: int, j: int|
            0 <= i < paragraphs(s).len() && 0 <= j < paragraphs(s)[i].len() ==> (
            #[trigger] paragraphs(s)[i][j]) != LINE_FEED && s.contains(paragraphs(s)[i][j]),
        joined(paragraphs(s), hard_break()) == s,
    decreases s.len(),
{
    if s.len() > 0 {
        let front = s.drop_last();
        lemma_paragraphs(front);
        let head = paragraphs(front);
        let all = paragraphs(s);
        let c = s.last();
        assert(s == front.push(c));
        assert forall|i: int, j: int| 0 <= i < all.len() && 0 <= j < all[i].len() implies (
        #[trigger] all[i][j]) != LINE_FEED && s.contains(all[i][j]) by {
            if c != LINE_FEED && i == all.len() - 1 && j == all[i].len() - 1 {
                assert(all[i][j] == c);
                assert(s[s.len() - 1] == c);
            } else {
                let x = head[i][j];
                assert(all[i][j] == x);
                assert(front.contains(x));
                let k = choose|k: int| 0 <= k < front.len() && front[k] == x;
                assert(s[k] == x);
            }
        }
        if c == LINE_FEED {
            assert(all.drop_last() == head);
            assert(joined(all, hard_break()) == joined(head, hard_break()) + hard_break()
                + Seq::<char>::empty());
            assert(front + hard_break() + Seq::<char>::empty() == s);
        } else if head.len() == 1 {
            assert(all == seq![head[0].push(c)]);
        } else {
            assert(all.drop_last() == head.drop_last());
            assert(joined(head.drop_last(), hard_break()) + hard_break() + head.last().push(c) == (
            joined(head.drop_last(), hard_break()) + hard_break() + head.last()).push(c));
        }
    } else {
        assert(joined(paragraphs(s), hard_break()) == Seq::<char>::empty());
    }
}

/// Adds the characters of `part` to the end of `out`.
pub fn append(out: &mut Vec<char>, part: &Vec<char>)
    ensures
        final(out)@ == old(out)@ + part@,
{
    let ghost before = out@;
    let mut i: usize = 0;
    while i < part.len()
        invariant
            0 <= i <= part.len(),
            out@ == before + part@.take(i as int),
        decreases part.len() - i,
    {
        out.push(part[i]);
        proof {
            assert(part@.take(i + 1) == part@.take(i as int).push(part@[i as int]));
            assert(before + part@.take(i as int).push(part@[i as int]) == (before + part@.take(
                i as int,
            )).push(part@[i as int]));
        }
        i += 1;
    }
    proof {
        assert(part@.take(part.len() as int) == part@);
    }
}

/// Puts the parts end to end with `sep` between each two.
pub fn join(parts: &Vec<Vec<char>>, sep: &Vec<char>) -> (out: Vec<char>)
    ensures
        out@ == joined(line_views(parts@), sep@),
{
    let ghost views = line_views(parts@);
    let mut out: Vec<char> = Vec::new();
    let mut i: usize = 0;
    proof {
        assert(views.take(0) == Seq::<Seq<char>>::empty());
    }
    while i < parts.len()
        invariant
            0 <= i <= parts.len(),
            views == line_views(parts@),
            out@ == joined(views.take(i as int), sep@),
        decreases parts.len() - i,
    {
        let ghost so_far = out@;
        if i > 0 {
            append(&mut out, sep);
        }
        append(&mut out, &parts[i]);
        proof {
            let now = views.take(i + 1);
            assert(now.drop_last() == views.take(i as int));
            assert(now.last() == parts@[i as int]@);
            if i == 0 {
                assert(so_far + parts@[i as int]@ == parts@[i as int]@);
            }
        }
        i += 1;
    }
    proof {
        assert(views.take(parts.len() as int) == views);
    }
    out
}

/// Splits a text into its paragraphs.
pub fn split_paragraphs(text: &Vec<char>) -> (parts: Vec<Vec<char>>)
    ensures
        line_views(parts@) == paragraphs(text@),
        parts.len() >= 1,
{
    let mut parts: Vec<Vec<char>> = Vec::new();
    let mut current: Vec<char> = Vec::new();
    let mut i: usize = 0;
    proof {
        assert(line_views(parts@).push(current@) == paragraphs(text@.take(0)));
    }
    while i < text.len()
        invariant
            0 <= i <= text.len(),
            line_views(parts@).push(current@) == paragraphs(text@.take(i as int)),
        decreases text.len() - i,
    {
        let c = text[i];
        let ghost done = line_views(parts@);
        let ghost open = current@;
        proof {
            assert(text@.take(i + 1).drop_last() == text@.take(i as int));
            assert(done.push(open).drop_last() == done);
        }
        if c == LINE_FEED {
            parts.push(current);
            current = Vec::new();
            proof {
                assert(line_views(parts@) == done.push(open));
            }
        } else {
            current.push(c);
        }
        i += 1;
    }
    proof {
        assert(text@.take(text.len() as int) == text@);
        let ghost done = line_views(parts@);
        assert(line_views(parts@.push(current)) == done.push(current@));
    }
    parts.push(current);
    parts
}

} // verus!
