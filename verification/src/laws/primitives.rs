//! What the text primitives do, told by how results relate to the pieces a text is made of.

use vstd::prelude::*;

use crate::cluster::as_ints;
use crate::collect::{keys, pairs, LogLines};
use crate::laws::text::{lemma_leading_satisfy, lemma_leading_stops};
use crate::sketch::views;
use crate::text::{
    decimal, joined, leading, lemma_leading_bounds, lemma_leading_is, lines_of, occurs_in,
    found_at, terminated, texts, trimmed, trimmed_end, trimmed_start, white_space, without_cr,
    words_of,
};

verus! {

// ---- White space ----

/// White space is the tabs, feeds and returns from U+0009 to U+000D, the space, and the Unicode
/// characters that separate words, lines or paragraphs.
pub proof fn law_white_space(c: char)
    ensures
        white_space(c) <==> set![
            0x9int, 0xa, 0xb, 0xc, 0xd, 0x20, 0x85, 0xa0, 0x1680, 0x2000, 0x2001, 0x2002, 0x2003,
            0x2004, 0x2005, 0x2006, 0x2007, 0x2008, 0x2009, 0x200a, 0x2028, 0x2029, 0x202f, 0x205f,
            0x3000,
        ].contains(c as int),
{
}

// ---- Lines ----

/// An empty text has no lines, and a text without a line feed is one line as it stands.
pub proof fn law_text_without_line_feed_is_one_line(text: Seq<char>)
    requires
        !text.contains('\n'),
    ensures
        lines_of(text) == if text.len() == 0 {
            Seq::<Seq<char>>::empty()
        } else {
            seq![text]
        },
{
    if text.len() > 0 {
        assert forall|i: int| 0 <= i < text.len() implies #[trigger] text[i] != '\n' by {
            assert(text.contains(text[i]));
        }
        lemma_leading_is(text, |c: char| c != '\n', text.len() as int);
    }
}

/// A line feed ends a line, and the lines of the rest follow.
pub proof fn law_line_feed_ends_line(line: Seq<char>, rest: Seq<char>)
    requires
        !line.contains('\n'),
        line.len() > 0 ==> line.last() != '\r',
    ensures
        lines_of(line + seq!['\n'] + rest) == seq![line] + lines_of(rest),
{
    let text = line + seq!['\n'] + rest;
    lemma_first_line(line, rest);
    assert(without_cr(line) == line);
    assert(lines_of(text) == seq![line] + lines_of(rest));
}

/// A carriage return and a line feed end a line too; neither is part of it.
pub proof fn law_carriage_return_and_line_feed_end_line(line: Seq<char>, rest: Seq<char>)
    requires
        !line.contains('\n'),
    ensures
        lines_of(line + seq!['\r', '\n'] + rest) == seq![line] + lines_of(rest),
{
    let longer = line.push('\r');
    assert forall|i: int| 0 <= i < longer.len() implies #[trigger] longer[i] != '\n' by {
        if i < line.len() {
            assert(line.contains(line[i]));
        }
    }
    lemma_first_line(longer, rest);
    assert(longer + seq!['\n'] + rest =~= line + seq!['\r', '\n'] + rest);
    assert(without_cr(longer) =~= line);
}

proof fn lemma_first_line(line: Seq<char>, rest: Seq<char>)
    requires
        !line.contains('\n'),
    ensures
        lines_of(line + seq!['\n'] + rest) == seq![without_cr(line)] + lines_of(rest),
{
    let text = line + seq!['\n'] + rest;
    let n = line.len() as int;
    assert forall|i: int| 0 <= i < n implies #[trigger] text[i] != '\n' by {
        assert(text[i] == line[i]);
        assert(line.contains(line[i]));
    }
    lemma_leading_is(text, |c: char| c != '\n', n);
    assert(text.take(n) =~= line);
    assert(text.skip(n + 1) =~= rest);
}

/// Putting lines together ends each with a line feed and keeps their order.
pub proof fn law_terminated(a: Seq<Seq<char>>, line: Seq<char>)
    ensures
        terminated(Seq::empty()) == Seq::<char>::empty(),
        terminated(a.push(line)) == terminated(a) + line + seq!['\n'],
    decreases a.len(),
{
    if a.len() == 0 {
        assert(a.push(line).skip(1).len() == 0);
        assert(terminated(a.push(line).skip(1)) == Seq::<char>::empty());
        assert(terminated(a.push(line)) =~= terminated(a) + line + seq!['\n']);
    } else {
        law_terminated(a.skip(1), line);
        assert(a.push(line).skip(1) =~= a.skip(1).push(line));
        assert(terminated(a.push(line)) =~= terminated(a) + line + seq!['\n']);
    }
}

// ---- Words ----

/// A text without white space is one word, all of it.
pub proof fn law_text_without_white_space_is_one_word(word: Seq<char>)
    requires
        word.len() > 0,
        forall|i: int| 0 <= i < word.len() ==> !white_space(#[trigger] word[i]),
    ensures
        words_of(word) == seq![word],
{
    let n = word.len() as int;
    lemma_leading_is(word, |c: char| !white_space(c), n);
    assert(word.take(n) =~= word);
    assert(words_of(word.skip(n)) == Seq::<Seq<char>>::empty());
    assert(words_of(word) =~= seq![word]);
}

/// White space parts a text: its words are those before and those after.
pub proof fn law_white_space_parts_words(a: Seq<char>, c: char, b: Seq<char>)
    requires
        white_space(c),
    ensures
        words_of(a + seq![c] + b) == words_of(a) + words_of(b),
    decreases a.len(),
{
    let text = a + seq![c] + b;
    if a.len() == 0 {
        assert(text.skip(1) =~= b);
        assert(words_of(text) =~= words_of(a) + words_of(b));
    } else if white_space(a[0]) {
        law_white_space_parts_words(a.skip(1), c, b);
        assert(text.skip(1) =~= a.skip(1) + seq![c] + b);
    } else {
        let p = |c: char| !white_space(c);
        let n = leading(a, p) as int;
        lemma_leading_bounds(a, p);
        lemma_leading_satisfy(a, p);
        lemma_leading_stops(a, p);
        assert forall|i: int| 0 <= i < n implies p(#[trigger] text[i]) by {
            assert(text[i] == a[i]);
        }
        assert(n < a.len() ==> text[n] == a[n]);
        assert(n == a.len() ==> text[n] == c);
        lemma_leading_is(text, p, n);
        assert(text.take(n) =~= a.take(n));
        assert(text.skip(n) =~= a.skip(n) + seq![c] + b);
        law_white_space_parts_words(a.skip(n), c, b);
        assert(words_of(text) == seq![text.take(n)] + words_of(text.skip(n)));
        assert(words_of(a) == seq![a.take(n)] + words_of(a.skip(n)));
        assert(words_of(text) =~= words_of(a) + words_of(b));
    }
}

// ---- Trimming ----

/// Trimming takes away all white space around a text and nothing else.
pub proof fn law_trimming_takes_only_what_is_around(
    front: Seq<char>,
    core: Seq<char>,
    back: Seq<char>,
)
    requires
        forall|i: int| 0 <= i < front.len() ==> white_space(#[trigger] front[i]),
        forall|i: int| 0 <= i < back.len() ==> white_space(#[trigger] back[i]),
        core.len() > 0 ==> !white_space(core[0]) && !white_space(core.last()),
    ensures
        trimmed(front + core + back) == core,
{
    lemma_front_goes(front, core + back);
    assert(front + (core + back) =~= front + core + back);
    if core.len() == 0 {
        assert(core + back =~= back);
        lemma_front_goes(back, Seq::empty());
        assert(back + Seq::<char>::empty() =~= back);
        assert(trimmed_start(back) == Seq::<char>::empty());
        assert(core =~= Seq::empty());
    } else {
        assert((core + back)[0] == core[0]);
        lemma_back_goes(core, back);
    }
}

proof fn lemma_front_goes(front: Seq<char>, rest: Seq<char>)
    requires
        forall|i: int| 0 <= i < front.len() ==> white_space(#[trigger] front[i]),
    ensures
        trimmed_start(front + rest) == trimmed_start(rest),
    decreases front.len(),
{
    if front.len() == 0 {
        assert(front + rest =~= rest);
    } else {
        assert((front + rest)[0] == front[0]);
        assert forall|i: int| 0 <= i < front.len() - 1 implies white_space(
            #[trigger] front.skip(1)[i],
        ) by {
            assert(front.skip(1)[i] == front[i + 1]);
        }
        lemma_front_goes(front.skip(1), rest);
        assert((front + rest).skip(1) =~= front.skip(1) + rest);
    }
}

proof fn lemma_back_goes(core: Seq<char>, back: Seq<char>)
    requires
        core.len() > 0,
        !white_space(core.last()),
        forall|i: int| 0 <= i < back.len() ==> white_space(#[trigger] back[i]),
    ensures
        trimmed_end(core + back) == core,
    decreases back.len(),
{
    if back.len() == 0 {
        assert(core + back =~= core);
    } else {
        assert((core + back).last() == back.last());
        assert forall|i: int| 0 <= i < back.len() - 1 implies white_space(
            #[trigger] back.drop_last()[i],
        ) by {
            assert(back.drop_last()[i] == back[i]);
        }
        lemma_back_goes(core, back.drop_last());
        assert((core + back).drop_last() =~= core + back.drop_last());
    }
}

// ---- Searching ----

/// Every character of `word` stands in `text`, one after the other from position `at` on.
pub open spec fn stands_at(text: Seq<char>, word: Seq<char>, at: int) -> bool {
    &&& 0 <= at <= text.len() - word.len()
    &&& forall|i: int| 0 <= i < word.len() ==> text[at + i] == #[trigger] word[i]
}

/// A text occurs in another where its characters stand there one after the other, at whatever
/// position.
pub proof fn law_occurs_where_characters_stand(needle: Seq<char>, hay: Seq<char>)
    ensures
        occurs_in(needle, hay) <==> exists|at: int| stands_at(hay, needle, at),
{
    if occurs_in(needle, hay) {
        let at = choose|at: int| found_at(hay, needle, at);
        assert forall|i: int| 0 <= i < needle.len() implies hay[at + i] == #[trigger] needle[i] by {
            assert(hay.subrange(at, at + needle.len())[i] == hay[at + i]);
        }
        assert(stands_at(hay, needle, at));
    }
    if exists|at: int| stands_at(hay, needle, at) {
        let at = choose|at: int| stands_at(hay, needle, at);
        assert(hay.subrange(at, at + needle.len()) =~= needle);
        assert(found_at(hay, needle, at));
    }
}

/// A text occurs in every text that holds it, whatever stands before and after.
pub proof fn law_occurs_between(before: Seq<char>, needle: Seq<char>, after: Seq<char>)
    ensures
        occurs_in(needle, before + needle + after),
{
    assert(stands_at(before + needle + after, needle, before.len() as int));
    law_occurs_where_characters_stand(needle, before + needle + after);
}

// ---- Decimal numbers ----

/// The number that digits stand for.
pub open spec fn number_of(digits: Seq<char>) -> int
    decreases digits.len(),
{
    if digits.len() == 0 {
        0
    } else {
        10 * number_of(digits.drop_last()) + (digits.last() as int - '0' as int)
    }
}

/// Decimal notation is made of digits, without needless zeros in front, and reads back as the
/// number.
pub proof fn law_decimal_reads_back(n: nat)
    ensures
        decimal(n).len() > 0,
        forall|i: int| 0 <= i < decimal(n).len() ==> '0' <= #[trigger] decimal(n)[i] <= '9',
        decimal(n)[0] == '0' ==> decimal(n).len() == 1,
        number_of(decimal(n)) == n,
    decreases n,
{
    let d = decimal(n);
    if n < 10 {
        assert(d.drop_last().len() == 0);
        assert(number_of(d.drop_last()) == 0);
        assert(number_of(d) == n);
    } else {
        law_decimal_reads_back(n / 10);
        assert(d.drop_last() =~= decimal(n / 10));
        assert(d[0] == decimal(n / 10)[0]);
        assert(decimal(n / 10)[0] != '0') by {
            if decimal(n / 10)[0] == '0' {
                assert(decimal(n / 10).drop_last().len() == 0);
                assert(number_of(decimal(n / 10).drop_last()) == 0);
            }
        }
    }
}

/// Different numbers are written differently.
pub proof fn law_decimal_tells_numbers_apart(a: nat, b: nat)
    ensures
        decimal(a) == decimal(b) <==> a == b,
{
    law_decimal_reads_back(a);
    law_decimal_reads_back(b);
}

// ---- Joining ----

/// Joining nothing gives nothing, and one part as it stands; two lists joined separately and put
/// together with a separator are the joined whole.
pub proof fn law_joined(a: Seq<Seq<char>>, b: Seq<Seq<char>>, part: Seq<char>, separator: Seq<char>)
    requires
        a.len() > 0,
        b.len() > 0,
    ensures
        joined(Seq::empty(), separator) == Seq::<char>::empty(),
        joined(seq![part], separator) == part,
        joined(a + b, separator) == joined(a, separator) + separator + joined(b, separator),
    decreases a.len(),
{
    if a.len() == 1 {
        assert((a + b).skip(1) =~= b);
    } else {
        law_joined(a.skip(1), b, part, separator);
        assert((a + b).skip(1) =~= a.skip(1) + b);
        assert(joined(a + b, separator) =~= joined(a, separator) + separator + joined(
            b,
            separator,
        ));
    }
}

// ---- Contents ----

/// The contents of lists are those of their items, one for one.
pub proof fn law_contents(
    strings: Seq<String>,
    slices: Seq<&str>,
    lines: Seq<(String, String)>,
    found: Seq<(usize, usize)>,
    i: int,
)
    ensures
        texts(strings).len() == strings.len(),
        views(slices).len() == slices.len(),
        pairs(lines).len() == lines.len(),
        keys(pairs(lines)).len() == lines.len(),
        as_ints(found).len() == found.len(),
        0 <= i < strings.len() ==> texts(strings)[i] == strings[i]@,
        0 <= i < slices.len() ==> views(slices)[i] == slices[i]@,
        0 <= i < lines.len() ==> pairs(lines)[i] == (lines[i].0@, lines[i].1@),
        0 <= i < lines.len() ==> keys(pairs(lines))[i] == lines[i].0@,
        0 <= i < found.len() ==> as_ints(found)[i] == (found[i].0 as int, found[i].1 as int),
{
}

/// The contents of a log are its lines and the number of its info messages.
pub proof fn law_log_contents(log: LogLines, i: int)
    ensures
        log@.errors.len() == log.errors@.len(),
        log@.warnings.len() == log.warnings@.len(),
        log@.info_count == log.info_count,
        0 <= i < log.errors@.len() ==> log@.errors[i] == (log.errors@[i].0@, log.errors@[i].1@),
        0 <= i < log.warnings@.len() ==> log@.warnings[i] == (
            log.warnings@[i].0@,
            log.warnings@[i].1@,
        ),
{
}

} // verus!
