use crate::normalize::LINE_FEED;
use vstd::prelude::*;

verus! {

/// The character that marks a line end as made by wrapping. It comes from
/// the private use area, stands at the end of a display line and is followed
/// by a line feed; a line feed without it in front is the author's own.
pub const SOFT_BREAK: char = '\u{e000}';

/// Whether the character at `i` belongs to a soft break: it is the marker,
/// or the line feed directly behind one.
pub open spec fn in_soft_break(s: Seq<char>, i: int) -> bool {
    s[i] == SOFT_BREAK || (s[i] == LINE_FEED && i > 0 && s[i - 1] == SOFT_BREAK)
}

/// The text without its soft breaks: every marker is left out, and so is a
/// line feed that directly follows a marker. Nothing is put in their place,
/// since a soft break takes no character away from the line in front of it.
pub open spec fn stripped(s: Seq<char>) -> Seq<char>
    decreases s.len(),
{
    if s.len() == 0 {
        Seq::empty()
    } else if in_soft_break(s, s.len() - 1) {
        stripped(s.drop_last())
    } else {
        stripped(s.drop_last()).push(s.last())
    }
}

/// How many characters of `stripped(s)` stem from the first `offset`
/// characters of `s`. An offset past the end counts as the end.
pub open spec fn stripped_offset(s: Seq<char>, offset: int) -> int {
    if offset >= s.len() {
        stripped(s).len() as int
    } else if offset <= 0 {
        0
    } else {
        stripped(s.take(offset)).len() as int
    }
}

/// Whether `k` is the place in `s` for a caret with `logical` characters of
/// the stripped text in front of it: the first offset that has that many in
/// front, or the end of `s` where no offset has. Of the offsets around a soft
/// break this is the one in front of the marker, on the line that the break
/// ends.
pub open spec fn is_anchor(s: Seq<char>, logical: int, k: int) -> bool {
    &&& 0 <= k <= s.len()
    &&& (stripped_offset(s, k) >= logical || k == s.len())
    &&& forall|j: int| 0 <= j < k ==> stripped_offset(s, j) < logical
}

/// The place in `s` for a caret with `logical` stripped characters in front.
pub open spec fn anchored(s: Seq<char>, logical: int) -> int {
    choose|k: int| is_anchor(s, logical, k)
}

/// Whether no marker occurs in the text.
pub open spec fn has_no_marker(s: Seq<char>) -> bool {
    forall|i: int| 0 <= i < s.len() ==> s[i] != SOFT_BREAK
}

/// Stripping never makes a text longer, and no marker is left in the result.
pub proof fn lemma_stripped_basics(s: Seq<char>)
    ensures
        stripped(s).len() <= s.len(),
        has_no_marker(stripped(s)),
    decreases s.len(),
{
    if s.len() > 0 {
        lemma_stripped_basics(s.drop_last());
    }
}

/// A text without markers has no soft break to strip.
pub proof fn lemma_stripped_of_plain(s: Seq<char>)
    requires
        has_no_marker(s),
    ensures
        stripped(s) == s,
    decreases s.len(),
{
    if s.len() > 0 {
        lemma_stripped_of_plain(s.drop_last());
        assert(s.drop_last().push(s.last()) == s);
    }
}

/// Stripping twice gives what stripping once gives.
pub proof fn lemma_stripped_idempotent(s: Seq<char>)
    ensures
        stripped(stripped(s)) == stripped(s),
{
    lemma_stripped_basics(s);
    lemma_stripped_of_plain(stripped(s));
}

/// What stripping gives for a prefix is a prefix of what it gives for the
/// whole, so the stripped offset never falls as the offset grows, and grows
/// by one at most with each character.
pub proof fn lemma_stripped_prefix(s: Seq<char>, n: int)
    requires
        0 <= n <= s.len(),
    ensures
        stripped(s.take(n)).len() <= stripped(s).len(),
        stripped(s.take(n)) == stripped(s).take(stripped(s.take(n)).len() as int),
    decreases s.len() - n,
{
    if n == s.len() {
        assert(s.take(n) == s);
        assert(stripped(s).take(stripped(s).len() as int) == stripped(s));
    } else {
        lemma_stripped_prefix(s, n + 1);
        let longer = s.take(n + 1);
        assert(longer.drop_last() == s.take(n));
        let short_out = stripped(s.take(n));
        let long_out = stripped(longer);
        let whole = stripped(s);
        assert(short_out == long_out.take(short_out.len() as int));
        assert(long_out == whole.take(long_out.len() as int));
        assert(short_out == whole.take(short_out.len() as int));
    }
}

/// The stripped offset never falls as the offset grows.
pub proof fn lemma_stripped_offset_monotone(s: Seq<char>, j: int, k: int)
    requires
        j <= k,
    ensures
        stripped_offset(s, j) <= stripped_offset(s, k),
        0 <= stripped_offset(s, j) <= stripped(s).len(),
{
    let jj = if j <= 0 { 0 } else if j >= s.len() { s.len() as int } else { j };
    let kk = if k <= 0 { 0 } else if k >= s.len() { s.len() as int } else { k };
    assert(s.take(s.len() as int) == s);
    assert(s.take(0) == Seq::<char>::empty());
    assert(stripped_offset(s, j) == stripped(s.take(jj)).len());
    assert(stripped_offset(s, k) == stripped(s.take(kk)).len());
    lemma_stripped_prefix(s.take(kk), jj);
    assert(s.take(kk).take(jj) == s.take(jj));
    lemma_stripped_prefix(s, kk);
}

/// Stripping goes through a join of two texts, unless the seam would pair a
/// marker that ends the first with a line feed that begins the second.
pub proof fn lemma_stripped_concat(a: Seq<char>, b: Seq<char>)
    requires
        b.len() == 0 || a.len() == 0 || !(a.last() == SOFT_BREAK && b[0] == LINE_FEED),
    ensures
        stripped(a + b) == stripped(a) + stripped(b),
    decreases b.len(),
{
    if b.len() == 0 {
        assert(a + b == a);
        assert(stripped(a) + stripped(b) == stripped(a));
    } else {
        let whole = a + b;
        assert(whole.drop_last() == a + b.drop_last());
        assert(whole.last() == b.last());
        lemma_stripped_concat(a, b.drop_last());
        if b.len() >= 2 {
            assert(whole[whole.len() - 2] == b[b.len() - 2]);
        } else if a.len() > 0 {
            assert(whole[whole.len() - 2] == a.last());
        }
        assert(in_soft_break(whole, whole.len() - 1) == in_soft_break(b, b.len() - 1));
        if in_soft_break(b, b.len() - 1) {
        } else {
            assert(stripped(a) + stripped(b.drop_last()).push(b.last()) == (stripped(a)
                + stripped(b.drop_last())).push(b.last()));
        }
    }
}

/// At most one offset is the place for a caret.
pub proof fn lemma_anchor_unique(s: Seq<char>, logical: int, k1: int, k2: int)
    requires
        is_anchor(s, logical, k1),
        is_anchor(s, logical, k2),
    ensures
        k1 == k2,
{
    if k1 < k2 {
        assert(stripped_offset(s, k1) < logical);
    } else if k2 < k1 {
        assert(stripped_offset(s, k2) < logical);
    }
}

/// From an offset that no place for the caret lies in front of, the search
/// for the place ends.
proof fn lemma_anchor_search(s: Seq<char>, logical: int, from: int) -> (k: int)
    requires
        0 <= from <= s.len(),
        forall|j: int| 0 <= j < from ==> stripped_offset(s, j) < logical,
    ensures
        is_anchor(s, logical, k),
    decreases s.len() - from,
{
    if from == s.len() || stripped_offset(s, from) >= logical {
        from
    } else {
        lemma_anchor_search(s, logical, from + 1)
    }
}

/// Every caret has its place, and `anchored` names it.
pub proof fn lemma_anchor_exists(s: Seq<char>, logical: int)
    ensures
        is_anchor(s, logical, anchored(s, logical)),
{
    let k = lemma_anchor_search(s, logical, 0);
    assert(is_anchor(s, logical, k));
}

/// The place found for a caret has as many stripped characters in front of
/// it as were asked for, whenever the stripped text has that many.
pub proof fn lemma_anchor_keeps_offset(s: Seq<char>, logical: int, k: int)
    requires
        is_anchor(s, logical, k),
        0 <= logical <= stripped(s).len(),
    ensures
        stripped_offset(s, k) == logical,
{
    if k == 0 {
        assert(s.take(0) == Seq::<char>::empty());
        if s.len() == 0 {
            assert(stripped_offset(s, 0) == 0);
        }
    } else {
        assert(stripped_offset(s, k - 1) < logical);
        lemma_stripped_offset_step(s, k - 1);
    }
}

/// One more character in front adds one stripped character at most.
pub proof fn lemma_stripped_offset_step(s: Seq<char>, j: int)
    requires
        0 <= j < s.len(),
    ensures
        stripped_offset(s, j) <= stripped_offset(s, j + 1) <= stripped_offset(s, j) + 1,
        stripped_offset(s, j + 1) == stripped_offset(s, j) + (if in_soft_break(s, j) {
            0int
        } else {
            1int
        }),
{
    let shorter = s.take(j);
    let longer = s.take(j + 1);
    assert(longer.drop_last() == shorter);
    assert(longer[j] == s[j]);
    if j > 0 {
        assert(longer[j - 1] == s[j - 1]);
    }
    assert(in_soft_break(longer, longer.len() - 1) == in_soft_break(s, j));
    assert(stripped(longer).len() == stripped(shorter).len() + (if in_soft_break(s, j) {
        0int
    } else {
        1int
    }));
    assert(stripped_offset(s, j) == stripped(shorter).len()) by {
        if j == 0 {
            assert(shorter == Seq::<char>::empty());
        }
    }
    assert(stripped_offset(s, j + 1) == stripped(longer).len()) by {
        if j + 1 == s.len() {
            assert(longer == s);
        }
    }
}

/// Takes the soft breaks out of a text, in one pass that remembers only
/// whether the character before was the marker.
pub fn strip_soft_breaks(text: &Vec<char>) -> (out: Vec<char>)
    ensures
        out@ == stripped(text@),
{
    let mut out: Vec<char> = Vec::new();
    let mut after_marker = false;
    let mut i: usize = 0;
    while i < text.len()
        invariant
            0 <= i <= text.len(),
            out@ == stripped(text@.take(i as int)),
            after_marker == (i > 0 && text@[i - 1] == SOFT_BREAK),
        decreases text.len() - i,
    {
        let c = text[i];
        proof {
            let now = text@.take(i + 1);
            assert(now.drop_last() == text@.take(i as int));
            assert(in_soft_break(now, i as int) == in_soft_break(text@, i as int));
        }
        if c == SOFT_BREAK {
            after_marker = true;
        } else {
            if !(after_marker && c == LINE_FEED) {
                out.push(c);
            }
            after_marker = false;
        }
        i += 1;
    }
    proof {
        assert(text@.take(text.len() as int) == text@);
    }
    out
}

/// Carries a caret through `strip_soft_breaks`: the result is the offset in
/// the stripped text in front of which stands what stood in front of `offset`.
pub fn anchor_in_stripped(text: &Vec<char>, offset: usize) -> (moved: usize)
    ensures
        moved == stripped_offset(text@, offset as int),
        moved <= stripped(text@).len(),
{
    let stop: usize = if offset >= text.len() { text.len() } else { offset };
    let mut moved: usize = 0;
    let mut i: usize = 0;
    proof {
        assert(text@.take(0) == Seq::<char>::empty());
    }
    while i < stop
        invariant
            0 <= i <= stop <= text.len(),
            moved == stripped_offset(text@, i as int),
            moved <= i,
        decreases stop - i,
    {
        let c = text[i];
        proof {
            lemma_stripped_offset_step(text@, i as int);
        }
        if !(c == SOFT_BREAK || (c == LINE_FEED && i > 0 && text[i - 1] == SOFT_BREAK)) {
            moved += 1;
        }
        i += 1;
    }
    proof {
        lemma_stripped_offset_monotone(text@, stop as int, text.len() as int);
    }
    moved
}

/// Finds the place in a wrapped text for a caret that has `logical`
/// characters of the stripped text in front of it. Where the text is too
/// short for that, the caret goes to its end.
pub fn anchor_in_wrapped(text: &Vec<char>, logical: usize) -> (k: usize)
    ensures
        is_anchor(text@, logical as int, k as int),
        k == anchored(text@, logical as int),
{
    let mut seen: usize = 0;
    let mut k: usize = 0;
    proof {
        assert(text@.take(0) == Seq::<char>::empty());
    }
    while k < text.len() && seen < logical
        invariant
            0 <= k <= text.len(),
            seen == stripped_offset(text@, k as int),
            seen <= k,
            forall|j: int| 0 <= j < k ==> stripped_offset(text@, j) < logical,
        decreases text.len() - k,
    {
        let c = text[k];
        proof {
            lemma_stripped_offset_step(text@, k as int);
        }
        if !(c == SOFT_BREAK || (c == LINE_FEED && k > 0 && text[k - 1] == SOFT_BREAK)) {
            seen += 1;
        }
        k += 1;
    }
    proof {
        lemma_anchor_exists(text@, logical as int);
        lemma_anchor_unique(text@, logical as int, k as int, anchored(text@, logical as int));
    }
    k
}

} // verus!
