use vstd::prelude::*;

verus! {

/// The one line terminator that the engine works with.
pub const LINE_FEED: char = '\n';

/// The terminator that incoming text may use alone or in front of a line feed.
pub const CARRIAGE_RETURN: char = '\r';

/// The text with each carriage return turned into a line feed and each line
/// feed that directly follows a carriage return left out, so that a pair of
/// the two yields one line feed.
pub open spec fn returns_as_line_feeds(s: Seq<char>) -> Seq<char>
    decreases s.len(),
{
    if s.len() == 0 {
        Seq::empty()
    } else {
        let head = returns_as_line_feeds(s.drop_last());
        let c = s.last();
        if c == CARRIAGE_RETURN {
            head.push(LINE_FEED)
        } else if c == LINE_FEED && s.len() >= 2 && s[s.len() - 2] == CARRIAGE_RETURN {
            head
        } else {
            head.push(c)
        }
    }
}

/// The text in the internal convention: every terminator (a carriage return,
/// a line feed, or the pair) is one line feed, except that a carriage return
/// with nothing behind it ends no line and is dropped.
pub open spec fn normalized(s: Seq<char>) -> Seq<char> {
    if s.len() > 0 && s.last() == CARRIAGE_RETURN {
        returns_as_line_feeds(s.drop_last())
    } else {
        returns_as_line_feeds(s)
    }
}

/// How many characters of `normalized(s)` stem from the first `offset`
/// characters of `s`. An offset past the end counts as the end.
pub open spec fn normalized_offset(s: Seq<char>, offset: int) -> int {
    if offset >= s.len() {
        normalized(s).len() as int
    } else if offset <= 0 {
        0
    } else {
        returns_as_line_feeds(s.take(offset)).len() as int
    }
}

/// Whether no carriage return occurs in the text.
pub open spec fn has_no_return(s: Seq<char>) -> bool {
    forall|i: int| 0 <= i < s.len() ==> s[i] != CARRIAGE_RETURN
}

/// Turning returns into line feeds never makes a text longer, and what it
/// gives for a prefix is a prefix of what it gives for the whole.
pub proof fn lemma_returns_as_line_feeds_prefix(s: Seq<char>, n: int)
    requires
        0 <= n <= s.len(),
    ensures
        returns_as_line_feeds(s.take(n)).len() <= n,
        returns_as_line_feeds(s.take(n)).len() <= returns_as_line_feeds(s).len(),
        returns_as_line_feeds(s.take(n)) == returns_as_line_feeds(s).take(
            returns_as_line_feeds(s.take(n)).len() as int,
        ),
    decreases s.len() - n,
{
    if n == s.len() {
        assert(s.take(n) == s);
        lemma_returns_as_line_feeds_len(s);
        assert(returns_as_line_feeds(s).take(returns_as_line_feeds(s).len() as int)
            == returns_as_line_feeds(s));
    } else {
        lemma_returns_as_line_feeds_len(s.take(n));
        lemma_returns_as_line_feeds_prefix(s, n + 1);
        let longer = s.take(n + 1);
        assert(longer.drop_last() == s.take(n));
        let short_out = returns_as_line_feeds(s.take(n));
        let long_out = returns_as_line_feeds(longer);
        let whole = returns_as_line_feeds(s);
        assert(short_out == long_out.take(short_out.len() as int));
        assert(long_out == whole.take(long_out.len() as int));
        assert(short_out == whole.take(short_out.len() as int));
    }
}

/// Turning returns into line feeds never makes a text longer.
pub proof fn lemma_returns_as_line_feeds_len(s: Seq<char>)
    ensures
        returns_as_line_feeds(s).len() <= s.len(),
    decreases s.len(),
{
    if s.len() > 0 {
        lemma_returns_as_line_feeds_len(s.drop_last());
    }
}

/// No carriage return is left in a normalized text.
pub proof fn lemma_normalized_has_no_return(s: Seq<char>)
    ensures
        has_no_return(normalized(s)),
        has_no_return(returns_as_line_feeds(s)),
        normalized(s).len() <= s.len(),
    decreases s.len(),
{
    if s.len() > 0 {
        lemma_normalized_has_no_return(s.drop_last());
    }
    lemma_returns_as_line_feeds_len(s);
    if s.len() > 0 {
        lemma_returns_as_line_feeds_len(s.drop_last());
    }
}

/// A text without carriage returns is already in the internal convention.
pub proof fn lemma_normalized_of_clean(s: Seq<char>)
    requires
        has_no_return(s),
    ensures
        normalized(s) == s,
        returns_as_line_feeds(s) == s,
    decreases s.len(),
{
    if s.len() > 0 {
        lemma_normalized_of_clean(s.drop_last());
        assert(s.drop_last().push(s.last()) == s);
    }
}

/// Normalizing twice gives what normalizing once gives.
pub proof fn lemma_normalized_idempotent(s: Seq<char>)
    ensures
        normalized(normalized(s)) == normalized(s),
{
    lemma_normalized_has_no_return(s);
    lemma_normalized_of_clean(normalized(s));
}

/// Brings a text with mixed line endings into the internal convention, in one
/// pass that remembers only whether the character before was a carriage return.
pub fn normalize(text: &Vec<char>) -> (out: Vec<char>)
    ensures
        out@ == normalized(text@),
{
    let mut out: Vec<char> = Vec::new();
    let mut after_return = false;
    let mut i: usize = 0;
    while i < text.len()
        invariant
            0 <= i <= text.len(),
            out@ == normalized(text@.take(i as int)),
            after_return == (i > 0 && text@[i - 1] == CARRIAGE_RETURN),
        decreases text.len() - i,
    {
        let c = text[i];
        proof {
            let before = text@.take(i as int);
            let now = text@.take(i + 1);
            assert(now.drop_last() == before);
            assert(now.last() == c);
            if i > 0 {
                assert(before.drop_last() == text@.take(i - 1));
                assert(before.last() == text@[i - 1]);
                assert(now[now.len() - 2] == text@[i - 1]);
            }
            if after_return {
                let earlier = before.drop_last();
                assert(normalized(before) == returns_as_line_feeds(earlier));
                assert(returns_as_line_feeds(before) == returns_as_line_feeds(earlier).push(
                    LINE_FEED,
                ));
            } else {
                assert(normalized(before) == returns_as_line_feeds(before));
            }
            if c == CARRIAGE_RETURN {
                assert(normalized(now) == returns_as_line_feeds(before));
            } else {
                assert(normalized(now) == returns_as_line_feeds(now));
            }
        }
        if after_return {
            out.push(LINE_FEED);
        }
        if c == CARRIAGE_RETURN {
            after_return = true;
        } else {
            if !(after_return && c == LINE_FEED) {
                out.push(c);
            }
            after_return = false;
        }
        i += 1;
    }
    proof {
        assert(text@.take(text.len() as int) == text@);
    }
    out
}

/// Carries a caret through `normalize`: the result is the offset in the
/// normalized text in front of which stands what stood in front of `offset`.
pub fn anchor_in_normalized(text: &Vec<char>, offset: usize) -> (moved: usize)
    ensures
        moved == normalized_offset(text@, offset as int),
        moved <= normalized(text@).len(),
{
    let stop: usize = if offset >= text.len() {
        if text.len() > 0 && text[text.len() - 1] == CARRIAGE_RETURN {
            text.len() - 1
        } else {
            text.len()
        }
    } else {
        offset
    };
    let mut moved: usize = 0;
    let mut i: usize = 0;
    while i < stop
        invariant
            0 <= i <= stop <= text.len(),
            moved == returns_as_line_feeds(text@.take(i as int)).len(),
            moved <= i,
        decreases stop - i,
    {
        let c = text[i];
        proof {
            let now = text@.take(i + 1);
            assert(now.drop_last() == text@.take(i as int));
            if i > 0 {
                assert(now[now.len() - 2] == text@[i - 1]);
            }
        }
        if !(c == LINE_FEED && i > 0 && text[i - 1] == CARRIAGE_RETURN) {
            moved += 1;
        }
        i += 1;
    }
    proof {
        if offset >= text.len() {
            if text.len() > 0 && text@.last() == CARRIAGE_RETURN {
                assert(text@.take(stop as int) == text@.drop_last());
            } else {
                assert(text@.take(stop as int) == text@);
            }
        } else {
            lemma_returns_as_line_feeds_prefix(text@, offset as int);
            if text@.last() == CARRIAGE_RETURN {
                lemma_returns_as_line_feeds_prefix(text@.drop_last(), offset as int);
                assert(text@.drop_last().take(offset as int) == text@.take(offset as int));
            }
        }
    }
    moved
}

} // verus!
