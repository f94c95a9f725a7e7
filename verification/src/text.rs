//! Text primitives: characters, lines, words, trimming, searching and decimal numbers.

use vstd::prelude::*;

verus! {

// ---- Meaning ----

/// The characters that carry the Unicode `White_Space` property.
pub open spec fn white_space(c: char) -> bool {
    ||| '\u{9}' <= c <= '\u{d}'
    ||| c == ' '
    ||| c == '\u{85}'
    ||| c == '\u{a0}'
    ||| c == '\u{1680}'
    ||| '\u{2000}' <= c <= '\u{200a}'
    ||| c == '\u{2028}'
    ||| c == '\u{2029}'
    ||| c == '\u{202f}'
    ||| c == '\u{205f}'
    ||| c == '\u{3000}'
}

/// The contents of a list of strings.
pub open spec fn texts(strings: Seq<String>) -> Seq<Seq<char>> {
    Seq::new(strings.len(), |i: int| strings[i]@)
}

/// How many characters at the front of `s` satisfy `p`, up to the first that does not.
pub open spec fn leading(s: Seq<char>, p: spec_fn(char) -> bool) -> nat
    decreases s.len(),
{
    if s.len() == 0 || !p(s[0]) {
        0
    } else {
        1 + leading(s.skip(1), p)
    }
}

/// `line` without the one carriage return that may end it.
pub open spec fn without_cr(line: Seq<char>) -> Seq<char> {
    if line.len() > 0 && line.last() == '\r' {
        line.drop_last()
    } else {
        line
    }
}

/// The lines of a text. Each ends in `\n` or `\r\n`, which are not part of it; at the last line
/// the ending may be missing, and a carriage return there belongs to the line.
pub open spec fn lines_of(text: Seq<char>) -> Seq<Seq<char>>
    decreases text.len(),
{
    if text.len() == 0 {
        Seq::empty()
    } else {
        let n = leading(text, |c: char| c != '\n') as int;
        if n >= text.len() {
            seq![text]
        } else {
            seq![without_cr(text.take(n))] + lines_of(text.skip(n + 1))
        }
    }
}

/// The words of a text: its longest runs of characters that are not white space.
pub open spec fn words_of(text: Seq<char>) -> Seq<Seq<char>>
    decreases text.len(),
{
    if text.len() == 0 {
        Seq::empty()
    } else if white_space(text[0]) {
        words_of(text.skip(1))
    } else {
        let n = leading(text, |c: char| !white_space(c)) as int;
        proof {
            lemma_leading_bounds(text, |c: char| !white_space(c));
        }
        seq![text.take(n)] + words_of(text.skip(n))
    }
}

/// `s` without the white space at its front.
pub open spec fn trimmed_start(s: Seq<char>) -> Seq<char>
    decreases s.len(),
{
    if s.len() > 0 && white_space(s[0]) {
        trimmed_start(s.skip(1))
    } else {
        s
    }
}

/// `s` without the white space at its end.
pub open spec fn trimmed_end(s: Seq<char>) -> Seq<char>
    decreases s.len(),
{
    if s.len() > 0 && white_space(s.last()) {
        trimmed_end(s.drop_last())
    } else {
        s
    }
}

/// `s` without the white space around it.
pub open spec fn trimmed(s: Seq<char>) -> Seq<char> {
    trimmed_end(trimmed_start(s))
}

/// `needle` stands in `hay` from position `at` on.
pub open spec fn found_at(hay: Seq<char>, needle: Seq<char>, at: int) -> bool {
    0 <= at && at + needle.len() <= hay.len() && hay.subrange(at, at + needle.len()) == needle
}

/// `needle` stands somewhere in `hay`.
pub open spec fn occurs_in(needle: Seq<char>, hay: Seq<char>) -> bool {
    exists|at: int| found_at(hay, needle, at)
}

/// The decimal digit `d`.
pub open spec fn digit(d: nat) -> char {
    (48 + d) as char
}

/// The decimal notation of `n`.
pub open spec fn decimal(n: nat) -> Seq<char>
    decreases n,
{
    if n < 10 {
        seq![digit(n)]
    } else {
        decimal(n / 10).push(digit(n % 10))
    }
}

/// The parts in order, with `separator` between each and the next.
pub open spec fn joined(parts: Seq<Seq<char>>, separator: Seq<char>) -> Seq<char>
    decreases parts.len(),
{
    if parts.len() == 0 {
        Seq::empty()
    } else if parts.len() == 1 {
        parts[0]
    } else {
        parts[0] + separator + joined(parts.skip(1), separator)
    }
}

/// The lines in order, each followed by `\n`.
pub open spec fn terminated(lines: Seq<Seq<char>>) -> Seq<char>
    decreases lines.len(),
{
    if lines.len() == 0 {
        Seq::empty()
    } else {
        lines[0].push('\n') + terminated(lines.skip(1))
    }
}

// ---- Outside functions ----

/// `char::is_whitespace` answers whether a character has the `White_Space` property; the
/// contract spells out the characters that do.
pub assume_specification[ char::is_whitespace ](c: char) -> (r: bool)
    ensures
        r == white_space(c),
;

/// `String::push` appends one character to the end of the string and changes nothing else.
pub assume_specification[ String::push ](s: &mut String, c: char)
    ensures
        final(s)@ == old(s)@.push(c),
;

// ---- Lemmas ----

/// `leading` counts characters of `s`, and counts the first where that satisfies `p`.
pub proof fn lemma_leading_bounds(s: Seq<char>, p: spec_fn(char) -> bool)
    ensures
        leading(s, p) <= s.len(),
        s.len() > 0 && p(s[0]) ==> leading(s, p) > 0,
    decreases s.len(),
{
    if s.len() > 0 && p(s[0]) {
        lemma_leading_bounds(s.skip(1), p);
    }
}

/// `leading` is `n` where the first `n` characters satisfy `p` and the next, if any, does not.
pub proof fn lemma_leading_is(s: Seq<char>, p: spec_fn(char) -> bool, n: int)
    requires
        0 <= n <= s.len(),
        forall|i: int| 0 <= i < n ==> p(#[trigger] s[i]),
        n < s.len() ==> !p(s[n]),
    ensures
        leading(s, p) == n,
    decreases n,
{
    if n > 0 {
        assert(p(s[0]));
        assert forall|i: int| 0 <= i < n - 1 implies p(#[trigger] s.skip(1)[i]) by {
            assert(s.skip(1)[i] == s[i + 1]);
        }
        lemma_leading_is(s.skip(1), p, n - 1);
    }
}

/// The contents of a list that grows by one string.
pub proof fn lemma_texts_push(strings: Seq<String>, s: String)
    ensures
        texts(strings.push(s)) == texts(strings).push(s@),
{
    assert(texts(strings.push(s)) =~= texts(strings).push(s@));
}

/// The first word of a text that starts with one ends after `n` characters.
proof fn lemma_word_then_rest(text: Seq<char>, n: int)
    requires
        0 < n <= text.len(),
        forall|i: int| 0 <= i < n ==> !white_space(#[trigger] text[i]),
        n < text.len() ==> white_space(text[n]),
    ensures
        words_of(text) == seq![text.take(n)] + words_of(text.skip(n)),
{
    lemma_leading_is(text, |c: char| !white_space(c), n);
}

// ---- Functions ----

/// The characters of a string, in order.
pub fn chars_of(s: &str) -> (r: Vec<char>)
    ensures
        r@ == s@,
{
    let mut out: Vec<char> = Vec::new();
    for c in it: s.chars()
        invariant
            it.seq() == s@,
            out@ == s@.take(it.index() as int),
    {
        out.push(c);
    }
    out
}

/// Splits a text into its lines.
pub fn split_lines(text: &str) -> (r: Vec<String>)
    ensures
        texts(r@) == lines_of(text@),
{
    let mut out: Vec<String> = Vec::new();
    let mut line: String = String::new();
    let mut pending_cr: bool = false;
    let ghost mut start: int = 0;
    proof {
        assert(text@.skip(0) =~= text@);
        assert(texts(out@) + lines_of(text@) =~= lines_of(text@));
    }
    for c in it: text.chars()
        invariant
            it.seq() == text@,
            0 <= start <= it.index() <= text@.len(),
            lines_of(text@) == texts(out@) + lines_of(text@.skip(start)),
            forall|k: int| start <= k < it.index() ==> text@[k] != '\n',
            pending_cr <==> start < it.index() && text@[it.index() - 1] == '\r',
            text@.subrange(start, it.index() as int) == if pending_cr {
                line@.push('\r')
            } else {
                line@
            },
    {
        let ghost i = it.index() as int;
        if c == '\n' {
            proof {
                let rest = text@.skip(start);
                let n = i - start;
                lemma_leading_is(rest, |c: char| c != '\n', n);
                assert(rest.take(n) =~= text@.subrange(start, i));
                assert(rest.skip(n + 1) =~= text@.skip(i + 1));
                assert(without_cr(rest.take(n)) =~= line@);
                lemma_texts_push(out@, line);
                assert(texts(out@.push(line)) + lines_of(text@.skip(i + 1)) =~= texts(out@)
                    + lines_of(rest));
                start = i + 1;
            }
            out.push(line);
            line = String::new();
            pending_cr = false;
            assert(text@.subrange(start, i + 1) =~= line@);
        } else {
            assert(text@.subrange(start, i + 1) =~= text@.subrange(start, i).push(c));
            if pending_cr {
                line.push('\r');
            }
            pending_cr = c == '\r';
            if !pending_cr {
                line.push(c);
            }
        }
    }
    let ghost rest = text@.skip(start);
    assert(rest =~= text@.subrange(start, text@.len() as int));
    if pending_cr {
        line.push('\r');
    }
    assert(rest == line@);
    if !line.as_str().is_empty() {
        proof {
            lemma_leading_is(rest, |c: char| c != '\n', rest.len() as int);
            lemma_texts_push(out@, line);
        }
        out.push(line);
    }
    assert(texts(out@) =~= lines_of(text@));
    out
}

/// Splits a text into its words.
pub fn split_words(text: &str) -> (r: Vec<String>)
    ensures
        texts(r@) == words_of(text@),
{
    let mut out: Vec<String> = Vec::new();
    let mut word: String = String::new();
    let ghost mut start: int = 0;
    proof {
        assert(text@.skip(0) =~= text@);
        assert(texts(out@) + words_of(text@) =~= words_of(text@));
    }
    for c in it: text.chars()
        invariant
            it.seq() == text@,
            0 <= start <= it.index() <= text@.len(),
            words_of(text@) == texts(out@) + words_of(text@.skip(start)),
            forall|k: int| start <= k < it.index() ==> !white_space(text@[k]),
            text@.subrange(start, it.index() as int) == word@,
    {
        let ghost i = it.index() as int;
        if c.is_whitespace() {
            let ghost before = text@.skip(start);
            assert(text@.skip(i).skip(1) =~= text@.skip(i + 1));
            assert(words_of(text@.skip(i)) == words_of(text@.skip(i + 1)));
            if !word.as_str().is_empty() {
                proof {
                    lemma_word_then_rest(before, i - start);
                    assert(before.take(i - start) =~= word@);
                    assert(before.skip(i - start) =~= text@.skip(i));
                    lemma_texts_push(out@, word);
                    assert(texts(out@.push(word)) + words_of(text@.skip(i + 1)) =~= texts(out@)
                        + words_of(before));
                }
                out.push(word);
                word = String::new();
            }
            proof {
                start = i + 1;
                assert(text@.subrange(start, i + 1) =~= word@);
            }
        } else {
            assert(text@.subrange(start, i + 1) =~= text@.subrange(start, i).push(c));
            word.push(c);
        }
    }
    let ghost rest = text@.skip(start);
    assert(rest =~= word@);
    if !word.as_str().is_empty() {
        proof {
            lemma_word_then_rest(rest, rest.len() as int);
            assert(rest.take(rest.len() as int) =~= rest);
            assert(rest.skip(rest.len() as int).len() == 0);
            lemma_texts_push(out@, word);
        }
        out.push(word);
    }
    assert(texts(out@) =~= words_of(text@));
    out
}

/// Removes the white space around a text.
pub fn trim(text: &str) -> (r: String)
    ensures
        r@ == trimmed(text@),
{
    let chars = chars_of(text);
    let mut from: usize = 0;
    assert(text@.skip(0) =~= text@);
    while from < chars.len() && chars[from].is_whitespace()
        invariant
            chars@ == text@,
            from <= chars.len(),
            trimmed_start(text@) == trimmed_start(text@.skip(from as int)),
        decreases chars.len() - from,
    {
        assert(text@.skip(from as int).skip(1) =~= text@.skip(from + 1));
        from += 1;
    }
    let ghost front = text@.skip(from as int);
    let mut to: usize = chars.len();
    assert(front.take(front.len() as int) =~= front);
    while from < to && chars[to - 1].is_whitespace()
        invariant
            chars@ == text@,
            from <= to <= chars.len(),
            front == text@.skip(from as int),
            trimmed_end(front) == trimmed_end(front.take(to - from)),
        decreases to - from,
    {
        assert(front.take(to - from).drop_last() =~= front.take(to - from - 1));
        to -= 1;
    }
    assert(text@.subrange(from as int, to as int) =~= front.take(to - from));
    text.substring_char(from, to).to_owned()
}

/// Whether `needle` occurs in the characters `hay`.
pub fn contains(hay: &[char], needle: &str) -> (r: bool)
    ensures
        r == occurs_in(needle@, hay@),
{
    let wanted = chars_of(needle);
    if wanted.len() > hay.len() {
        return false;
    }
    let last: usize = hay.len() - wanted.len();
    let mut at: usize = 0;
    loop
        invariant
            wanted@ == needle@,
            wanted@.len() <= hay@.len() <= usize::MAX,
            last == hay@.len() - wanted@.len(),
            at <= last,
            forall|i: int| 0 <= i < at ==> !#[trigger] found_at(hay@, needle@, i),
        decreases last - at,
    {
        let mut k: usize = 0;
        while k < wanted.len() && hay[at + k] == wanted[k]
            invariant
                wanted@ == needle@,
                k <= wanted@.len(),
                at + wanted@.len() <= hay@.len() <= usize::MAX,
                forall|j: int| 0 <= j < k ==> hay@[at + j] == wanted@[j],
            decreases wanted@.len() - k,
        {
            k += 1;
        }
        if k == wanted.len() {
            assert(hay@.subrange(at as int, at + needle@.len()) =~= needle@);
            assert(found_at(hay@, needle@, at as int));
            return true;
        }
        assert(!found_at(hay@, needle@, at as int)) by {
            assert(hay@[at + k] != needle@[k as int]);
            assert(hay@.subrange(at as int, at + needle@.len())[k as int] == hay@[at + k]);
        }
        if at == last {
            return false;
        }
        at += 1;
    }
}

/// Writes a number in decimal notation.
pub fn to_decimal(n: usize) -> (r: String)
    ensures
        r@ == decimal(n as nat),
    decreases n,
{
    let d = (48 + (n % 10) as u8) as char;
    let mut out = if n < 10 {
        String::new()
    } else {
        to_decimal(n / 10)
    };
    out.push(d);
    assert(n < 10 ==> out@ =~= seq![digit(n as nat)]);
    out
}

/// Joins texts, with a separator between each and the next.
pub fn join(parts: &Vec<String>, separator: &str) -> (r: String)
    ensures
        r@ == joined(texts(parts@), separator@),
{
    let mut out = String::new();
    let ghost all = texts(parts@);
    assert(all.skip(0) =~= all);
    let mut i: usize = 0;
    while i < parts.len()
        invariant
            all == texts(parts@),
            i <= parts@.len(),
            i == 0 ==> out@.len() == 0,
            i < parts@.len() ==> joined(all, separator@) == out@ + (if i == 0 {
                Seq::empty()
            } else {
                separator@
            }) + joined(all.skip(i as int), separator@),
            i == parts@.len() ==> out@ == joined(all, separator@),
        decreases parts@.len() - i,
    {
        if i > 0 {
            out.append(separator);
        }
        out.append(parts[i].as_str());
        proof {
            let rest = all.skip(i as int);
            assert(rest[0] == parts@[i as int]@);
            assert(rest.skip(1) =~= all.skip(i + 1));
            if i + 1 < parts@.len() {
                assert(joined(rest, separator@) == rest[0] + separator@ + joined(
                    rest.skip(1),
                    separator@,
                ));
                assert(joined(all, separator@) =~= out@ + separator@ + joined(
                    all.skip(i + 1),
                    separator@,
                ));
            } else {
                assert(joined(rest, separator@) == rest[0]);
                assert(joined(all, separator@) =~= out@);
            }
        }
        i += 1;
    }
    out
}

/// Puts lines together to a text, with `\n` after each.
pub fn terminate_lines(lines: &Vec<String>) -> (r: String)
    ensures
        r@ == terminated(texts(lines@)),
{
    let mut out = String::new();
    let ghost all = texts(lines@);
    proof {
        assert(all.skip(0) =~= all);
        assert(out@ + terminated(all) =~= terminated(all));
    }
    for i in 0..lines.len()
        invariant
            all == texts(lines@),
            terminated(all) == out@ + terminated(all.skip(i as int)),
    {
        let ghost before = out@;
        out.append(lines[i].as_str());
        out.push('\n');
        proof {
            let rest = all.skip(i as int);
            assert(rest.skip(1) =~= all.skip(i + 1));
            assert(out@ + terminated(rest.skip(1)) =~= before + terminated(rest));
        }
    }
    assert(out@ + terminated(all.skip(all.len() as int)) =~= out@);
    out
}

} // verus!
