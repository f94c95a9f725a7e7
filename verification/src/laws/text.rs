//! What lines, words and trimming promise.

use vstd::prelude::*;

use crate::text::{
    leading, lemma_leading_bounds, lemma_leading_is, lines_of, terminated, trimmed, trimmed_end,
    trimmed_start, white_space, without_cr, words_of,
};

verus! {

/// A text put together from lines reads back as those lines, where no line holds a line feed or
/// ends in a carriage return.
pub proof fn law_lines_read_back(lines: Seq<Seq<char>>)
    requires
        forall|i: int| 0 <= i < lines.len() ==> !(#[trigger] lines[i]).contains('\n'),
        forall|i: int|
            0 <= i < lines.len() && (#[trigger] lines[i]).len() > 0 ==> lines[i].last() != '\r',
    ensures
        lines_of(terminated(lines)) == lines,
    decreases lines.len(),
{
    if lines.len() > 0 {
        let first = lines[0];
        let rest = lines.skip(1);
        let text = terminated(lines);
        assert forall|i: int| 0 <= i < rest.len() implies !(#[trigger] rest[i]).contains('\n') by {
            assert(rest[i] == lines[i + 1]);
        }
        assert forall|i: int|
            0 <= i < rest.len() && (#[trigger] rest[i]).len() > 0 implies rest[i].last()
            != '\r' by {
            assert(rest[i] == lines[i + 1]);
        }
        law_lines_read_back(rest);
        let n = first.len() as int;
        assert forall|i: int| 0 <= i < n implies #[trigger] text[i] != '\n' by {
            assert(text[i] == first[i]);
            assert(first.contains(first[i]));
        }
        lemma_leading_is(text, |c: char| c != '\n', n);
        assert(text.take(n) =~= first);
        assert(text.skip(n + 1) =~= terminated(rest));
        assert(lines_of(text) =~= lines);
    } else {
        assert(lines_of(terminated(lines)) =~= lines);
    }
}

/// The line feed at the end of a text is optional, where no carriage return stands before it.
pub proof fn law_final_line_feed_is_optional(text: Seq<char>)
    requires
        text.len() > 0,
        text.last() != '\n',
        text.last() != '\r',
    ensures
        lines_of(text.push('\n')) == lines_of(text),
    decreases text.len(),
{
    let p = |c: char| c != '\n';
    let n = leading(text, p) as int;
    let longer = text.push('\n');
    lemma_leading_bounds(text, p);
    lemma_leading_satisfy(text, p);
    lemma_leading_stops(text, p);
    assert forall|i: int| 0 <= i < n implies p(#[trigger] longer[i]) by {
        assert(longer[i] == text[i]);
    }
    lemma_leading_is(longer, p, n);
    if n == text.len() {
        assert(longer.take(n) =~= text);
        assert(lines_of(longer.skip(n + 1)) == Seq::<Seq<char>>::empty());
        assert(without_cr(longer.take(n)) == text);
        assert(lines_of(longer) == seq![without_cr(longer.take(n))] + lines_of(longer.skip(n + 1)));
        assert(lines_of(text) == seq![text]);
        assert(lines_of(longer) =~= lines_of(text));
    } else {
        let rest = text.skip(n + 1);
        assert(rest.len() > 0);
        law_final_line_feed_is_optional(rest);
        assert(longer.take(n) =~= text.take(n));
        assert(longer.skip(n + 1) =~= rest.push('\n'));
    }
}

/// A text that follows a line feed adds its lines to those before it.
pub proof fn law_lines_of_joined_texts(a: Seq<char>, b: Seq<char>)
    ensures
        lines_of(a.push('\n') + b) == lines_of(a.push('\n')) + lines_of(b),
    decreases a.len(),
{
    let p = |c: char| c != '\n';
    let first = a.push('\n');
    let text = first + b;
    let n = leading(first, p) as int;
    lemma_leading_bounds(first, p);
    lemma_leading_satisfy(first, p);
    lemma_leading_stops(first, p);
    assert(n <= a.len()) by {
        if n > a.len() {
            assert(p(first[a.len() as int]));
        }
    }
    assert forall|i: int| 0 <= i < n implies p(#[trigger] text[i]) by {
        assert(text[i] == first[i]);
    }
    assert(text[n] == first[n]);
    lemma_leading_is(text, p, n);
    assert(text.take(n) =~= first.take(n));
    let line = seq![without_cr(first.take(n))];
    assert(lines_of(text) == line + lines_of(text.skip(n + 1)));
    assert(lines_of(first) == line + lines_of(first.skip(n + 1)));
    if n == a.len() {
        assert(text.skip(n + 1) =~= b);
        assert(lines_of(first.skip(n + 1)) =~= Seq::empty());
        assert(lines_of(text) =~= lines_of(first) + lines_of(b));
    } else {
        let rest = a.skip(n + 1);
        assert(first.skip(n + 1) =~= rest.push('\n'));
        assert(text.skip(n + 1) =~= rest.push('\n') + b);
        law_lines_of_joined_texts(rest, b);
        assert(lines_of(text) =~= lines_of(first) + lines_of(b));
    }
}

/// A further line feed after the last adds an empty line.
pub proof fn law_further_line_feed_adds_empty_line(text: Seq<char>)
    requires
        text.len() == 0 || text.last() == '\n',
    ensures
        lines_of(text.push('\n')) == lines_of(text).push(Seq::empty()),
{
    let feed = seq!['\n'];
    lemma_leading_is(feed, |c: char| c != '\n', 0);
    assert(without_cr(feed.take(0)) =~= Seq::empty());
    assert(lines_of(feed.skip(1)) =~= Seq::empty());
    assert(lines_of(feed) =~= seq![Seq::<char>::empty()]);
    if text.len() == 0 {
        assert(text.push('\n') =~= feed);
        assert(lines_of(feed) =~= lines_of(text).push(Seq::empty()));
    } else {
        assert(text =~= text.drop_last().push('\n'));
        law_lines_of_joined_texts(text.drop_last(), feed);
        assert(text.push('\n') =~= text.drop_last().push('\n') + feed);
        assert(lines_of(text) + lines_of(feed) =~= lines_of(text).push(Seq::empty()));
    }
}

/// No line holds a line feed.
pub proof fn law_lines_without_line_feed(text: Seq<char>, i: int)
    requires
        0 <= i < lines_of(text).len(),
    ensures
        !lines_of(text)[i].contains('\n'),
    decreases text.len(),
{
    let p = |c: char| c != '\n';
    let n = leading(text, p) as int;
    lemma_leading_bounds(text, p);
    lemma_leading_satisfy(text, p);
    if n >= text.len() {
        assert(lines_of(text) =~= seq![text]);
    } else {
        let rest = lines_of(text.skip(n + 1));
        assert(lines_of(text) == seq![without_cr(text.take(n))] + rest);
        if i > 0 {
            law_lines_without_line_feed(text.skip(n + 1), i - 1);
            assert(lines_of(text)[i] == rest[i - 1]);
        }
    }
}

/// No word is empty, and no word holds white space.
pub proof fn law_words_without_white_space(text: Seq<char>, i: int)
    requires
        0 <= i < words_of(text).len(),
    ensures
        words_of(text)[i].len() > 0,
        forall|k: int|
            0 <= k < words_of(text)[i].len() ==> !white_space(#[trigger] words_of(text)[i][k]),
    decreases text.len(),
{
    let p = |c: char| !white_space(c);
    let n = leading(text, p) as int;
    lemma_leading_bounds(text, p);
    lemma_leading_satisfy(text, p);
    if white_space(text[0]) {
        law_words_without_white_space(text.skip(1), i);
    } else {
        let rest = words_of(text.skip(n));
        assert(words_of(text) == seq![text.take(n)] + rest);
        if i > 0 {
            law_words_without_white_space(text.skip(n), i - 1);
            assert(words_of(text)[i] == rest[i - 1]);
        } else {
            assert forall|k: int| 0 <= k < n implies !white_space(#[trigger] text.take(n)[k]) by {
                assert(p(text[k]));
            }
        }
    }
}

/// A text of white space has no words.
pub proof fn law_blank_text_without_words(text: Seq<char>)
    requires
        forall|i: int| 0 <= i < text.len() ==> white_space(#[trigger] text[i]),
    ensures
        words_of(text) == Seq::<Seq<char>>::empty(),
    decreases text.len(),
{
    if text.len() > 0 {
        assert forall|i: int| 0 <= i < text.len() - 1 implies white_space(
            #[trigger] text.skip(1)[i],
        ) by {
            assert(text.skip(1)[i] == text[i + 1]);
        }
        law_blank_text_without_words(text.skip(1));
    }
}

/// A trimmed text neither starts nor ends with white space, and trimming it again changes
/// nothing.
pub proof fn law_trimmed(s: Seq<char>)
    ensures
        trimmed(s).len() > 0 ==> !white_space(trimmed(s)[0]) && !white_space(trimmed(s).last()),
        trimmed(trimmed(s)) == trimmed(s),
{
    lemma_trimmed_start(s);
    lemma_trimmed_end(trimmed_start(s));
}

/// Trimming does not touch the words of a text.
pub proof fn law_trimming_keeps_words(s: Seq<char>)
    ensures
        words_of(trimmed(s)) == words_of(s),
{
    lemma_trimmed_start(s);
    lemma_trimmed_end_keeps_words(trimmed_start(s));
}

// ---- Lemmas ----

/// The characters that `leading` counts satisfy `p`.
pub proof fn lemma_leading_satisfy(s: Seq<char>, p: spec_fn(char) -> bool)
    ensures
        forall|i: int| 0 <= i < leading(s, p) ==> p(#[trigger] s[i]),
    decreases s.len(),
{
    if s.len() > 0 && p(s[0]) {
        lemma_leading_satisfy(s.skip(1), p);
        lemma_leading_bounds(s.skip(1), p);
        assert forall|i: int| 0 <= i < leading(s, p) implies p(#[trigger] s[i]) by {
            if i > 0 {
                assert(s.skip(1)[i - 1] == s[i]);
            }
        }
    }
}

proof fn lemma_trimmed_start(s: Seq<char>)
    ensures
        trimmed_start(s).len() > 0 ==> !white_space(trimmed_start(s)[0]),
        words_of(trimmed_start(s)) == words_of(s),
    decreases s.len(),
{
    if s.len() > 0 && white_space(s[0]) {
        lemma_trimmed_start(s.skip(1));
    }
}

proof fn lemma_trimmed_end(s: Seq<char>)
    ensures
        trimmed_end(s).len() <= s.len(),
        trimmed_end(s).len() > 0 ==> trimmed_end(s)[0] == s[0],
        trimmed_end(s).len() > 0 ==> !white_space(trimmed_end(s).last()),
    decreases s.len(),
{
    if s.len() > 0 && white_space(s.last()) {
        lemma_trimmed_end(s.drop_last());
    }
}

proof fn lemma_trimmed_end_keeps_words(s: Seq<char>)
    ensures
        words_of(trimmed_end(s)) == words_of(s),
    decreases s.len(),
{
    if s.len() > 0 && white_space(s.last()) {
        lemma_trimmed_end_keeps_words(s.drop_last());
        lemma_words_drop_last(s);
    }
}

/// White space at the end of a text is not part of a word.
proof fn lemma_words_drop_last(s: Seq<char>)
    requires
        s.len() > 0,
        white_space(s.last()),
    ensures
        words_of(s.drop_last()) == words_of(s),
    decreases s.len(),
{
    let t = s.drop_last();
    if t.len() == 0 {
        assert(words_of(s.skip(1)) == Seq::<Seq<char>>::empty());
    } else if white_space(s[0]) {
        assert(t.skip(1) =~= s.skip(1).drop_last());
        lemma_words_drop_last(s.skip(1));
    } else {
        let p = |c: char| !white_space(c);
        let n = leading(s, p) as int;
        lemma_leading_bounds(s, p);
        lemma_leading_satisfy(s, p);
        lemma_leading_stops(s, p);
        assert(n < s.len()) by {
            if n == s.len() {
                assert(p(s[s.len() - 1]));
            }
        }
        assert forall|i: int| 0 <= i < n implies p(#[trigger] t[i]) by {
            assert(t[i] == s[i]);
        }
        lemma_leading_is(t, p, n);
        assert(t.take(n) =~= s.take(n));
        assert(t.skip(n) =~= s.skip(n).drop_last());
        lemma_words_drop_last(s.skip(n));
        assert(words_of(t) == seq![t.take(n)] + words_of(t.skip(n)));
        assert(words_of(s) == seq![s.take(n)] + words_of(s.skip(n)));
    }
}

/// The character after those that `leading` counts does not satisfy `p`.
pub proof fn lemma_leading_stops(s: Seq<char>, p: spec_fn(char) -> bool)
    ensures
        leading(s, p) < s.len() ==> !p(s[leading(s, p) as int]),
    decreases s.len(),
{
    if s.len() > 0 && p(s[0]) {
        lemma_leading_stops(s.skip(1), p);
    }
}

} // verus!
