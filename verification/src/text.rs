//! Text as lists of characters: lines, words and decimal indices.

use vstd::prelude::*;

verus! {

/// The characters of a string, one by one.
pub fn chars_of(s: &str) -> (chars: Vec<char>)
    ensures
        chars@ == s@,
{
    let mut chars: Vec<char> = Vec::new();
    for c in it: s.chars()
        invariant
            chars@ == it.seq().take(it.index() as int),
            it.seq() == s@,
    {
        chars.push(c);
        assert(it.seq().take(it.index() + 1) =~= it.seq().take(it.index() as int).push(c));
    }
    assert(chars@ =~= s@);
    chars
}

/// Whether two lists hold the same characters.
pub fn chars_equal(a: &Vec<char>, b: &Vec<char>) -> (equal: bool)
    ensures
        equal == (a@ == b@),
{
    if a.len() != b.len() {
        return false;
    }
    let mut i: usize = 0;
    while i < a.len()
        invariant
            a@.len() == b@.len(),
            i <= a@.len(),
            forall|j: int| 0 <= j < i ==> a@[j] == b@[j],
        decreases a@.len() - i,
    {
        if a[i] != b[i] {
            return false;
        }
        i += 1;
    }
    assert(a@ =~= b@);
    true
}

/// Whether a list of characters spells the given text.
pub fn chars_are(a: &Vec<char>, text: &str) -> (equal: bool)
    ensures
        equal == (a@ == text@),
{
    let b = chars_of(text);
    chars_equal(a, &b)
}

/// Whether two strings hold the same characters.
pub fn text_equals(a: &str, b: &str) -> (equal: bool)
    ensures
        equal == (a@ == b@),
{
    let left = chars_of(a);
    let right = chars_of(b);
    chars_equal(&left, &right)
}

/// `String::push`: appends one character.
#[verifier::external_body]
pub(crate) fn push_char(s: &mut String, c: char)
    ensures
        final(s)@ == old(s)@.push(c),
{
    s.push(c)
}

/// The string that holds the given characters.
pub fn string_of(chars: &Vec<char>) -> (s: String)
    ensures
        s@ == chars@,
{
    let mut s = String::new();
    let mut i: usize = 0;
    while i < chars.len()
        invariant
            i <= chars@.len(),
            s@ == chars@.take(i as int),
        decreases chars@.len() - i,
    {
        push_char(&mut s, chars[i]);
        assert(chars@.take(i + 1) =~= chars@.take(i as int).push(chars@[i as int]));
        i += 1;
    }
    assert(chars@.take(chars@.len() as int) =~= chars@);
    s
}

/// A copy of a list of scalars.
pub fn copy_of(values: &Vec<u64>) -> (copy: Vec<u64>)
    ensures
        copy@ == values@,
{
    let mut copy: Vec<u64> = Vec::new();
    let mut i: usize = 0;
    while i < values.len()
        invariant
            i <= values@.len(),
            copy@ == values@.take(i as int),
        decreases values@.len() - i,
    {
        copy.push(values[i]);
        assert(values@.take(i + 1) =~= values@.take(i as int).push(values@[i as int]));
        i += 1;
    }
    assert(values@.take(values@.len() as int) =~= values@);
    copy
}

/// Whether a character is white space: one of the characters with the Unicode property
/// `White_Space`.
pub open spec fn is_space(c: char) -> bool {
    let code = c as u32;
    (0x09 <= code <= 0x0d) || code == 0x20 || code == 0x85 || code == 0xa0 || code == 0x1680 || (
    0x2000 <= code <= 0x200a) || code == 0x2028 || code == 0x2029 || code == 0x202f || code
        == 0x205f || code == 0x3000
}

/// Whether a character is white space.
pub fn is_whitespace(c: char) -> (space: bool)
    ensures
        space == is_space(c),
{
    let code = c as u32;
    (0x09 <= code && code <= 0x0d) || code == 0x20 || code == 0x85 || code == 0xa0 || code
        == 0x1680 || (0x2000 <= code && code <= 0x200a) || code == 0x2028 || code == 0x2029 || code
        == 0x202f || code == 0x205f || code == 0x3000
}

/// The position of the first line feed at `from` or behind it; the text's length where
/// there is none.
pub open spec fn line_end(s: Seq<char>, from: int) -> int
    decreases s.len() - from,
{
    if from < 0 || from >= s.len() || s[from] == '\n' {
        from
    } else {
        line_end(s, from + 1)
    }
}

/// The lines of the text from `from` on: the stretches between line feeds. A text that
/// ends in a line feed ends in an empty line.
pub open spec fn lines_from(s: Seq<char>, from: int) -> Seq<Seq<char>>
    decreases s.len() - from,
{
    if from < 0 || from > s.len() {
        Seq::empty()
    } else {
        let end = line_end(s, from);
        proof {
            lemma_line_end(s, from);
        }
        if end >= s.len() {
            seq![s.subrange(from, s.len() as int)]
        } else {
            seq![s.subrange(from, end)] + lines_from(s, end + 1)
        }
    }
}

/// The end of a line lies at its start or behind it, and within the text.
pub proof fn lemma_line_end(s: Seq<char>, from: int)
    requires
        0 <= from <= s.len(),
    ensures
        from <= line_end(s, from) <= s.len(),
        line_end(s, from) < s.len() ==> s[line_end(s, from)] == '\n',
        forall|i: int| from <= i < line_end(s, from) ==> s[i] != '\n',
    decreases s.len() - from,
{
    if from < s.len() && s[from] != '\n' {
        lemma_line_end(s, from + 1);
    }
}

/// The position of the first character at `from` or behind it that is white space; the
/// text's length where there is none.
pub open spec fn word_end(s: Seq<char>, from: int) -> int
    decreases s.len() - from,
{
    if from < 0 || from >= s.len() || is_space(s[from]) {
        from
    } else {
        word_end(s, from + 1)
    }
}

/// The words of the text from `from` on: the longest stretches without white space.
pub open spec fn tokens_from(s: Seq<char>, from: int) -> Seq<Seq<char>>
    decreases s.len() - from,
{
    if from < 0 || from >= s.len() {
        Seq::empty()
    } else if is_space(s[from]) {
        tokens_from(s, from + 1)
    } else {
        let end = word_end(s, from);
        proof {
            lemma_word_end(s, from);
        }
        seq![s.subrange(from, end)] + tokens_from(s, end)
    }
}

/// The words of a text.
pub open spec fn tokens_of(s: Seq<char>) -> Seq<Seq<char>> {
    tokens_from(s, 0)
}

/// The lines of a text.
pub open spec fn lines_of(s: Seq<char>) -> Seq<Seq<char>> {
    lines_from(s, 0)
}

/// A word that starts at a character which is no white space ends behind it, within the
/// text, and holds no white space.
pub proof fn lemma_word_end(s: Seq<char>, from: int)
    requires
        0 <= from < s.len(),
        !is_space(s[from]),
    ensures
        from < word_end(s, from) <= s.len(),
        word_end(s, from) < s.len() ==> is_space(s[word_end(s, from)]),
        forall|i: int| from <= i < word_end(s, from) ==> !is_space(s[i]),
    decreases s.len() - from,
{
    assert(word_end(s, from) == word_end(s, from + 1));
    if from + 1 < s.len() && !is_space(s[from + 1]) {
        lemma_word_end(s, from + 1);
    } else {
        assert(word_end(s, from + 1) == from + 1);
    }
}

/// Splits a text into its lines.
pub fn split_lines(chars: &Vec<char>) -> (lines: Vec<Vec<char>>)
    ensures
        lines@.len() == lines_of(chars@).len(),
        forall|i: int| 0 <= i < lines@.len() ==> (#[trigger] lines@[i])@ == lines_of(chars@)[i],
{
    let mut lines: Vec<Vec<char>> = Vec::new();
    let mut line: Vec<char> = Vec::new();
    let len = chars.len();
    let ghost mut done: Seq<Seq<char>> = Seq::empty();
    let ghost mut start: int = 0;
    let mut i: usize = 0;
    while i < len
        invariant
            len == chars@.len(),
            0 <= start <= i <= len,
            lines@.len() == done.len(),
            forall|k: int| 0 <= k < lines@.len() ==> (#[trigger] lines@[k])@ == done[k],
            lines_of(chars@) == done + lines_from(chars@, start),
            line@ == chars@.subrange(start, i as int),
            forall|k: int| start <= k < i ==> chars@[k] != '\n',
            line_end(chars@, start) == line_end(chars@, i as int),
        decreases len - i,
    {
        let c = chars[i];
        if c == '\n' {
            let ghost before = lines@;
            lines.push(line);
            line = Vec::new();
            proof {
                assert(line_end(chars@, i as int) == i);
                let finished = chars@.subrange(start, i as int);
                assert(lines_from(chars@, start) =~= seq![finished] + lines_from(chars@, i + 1));
                assert(done + lines_from(chars@, start) =~= done.push(finished) + lines_from(
                    chars@,
                    i + 1,
                ));
                done = done.push(finished);
                start = i + 1;
                assert forall|k: int| 0 <= k < lines@.len() implies (#[trigger] lines@[k])@
                    == done[k] by {
                    if k < before.len() {
                        assert(lines@[k] == before[k]);
                    }
                }
                assert(line@ =~= chars@.subrange(start, i + 1));
            }
        } else {
            line.push(c);
            assert(line@ =~= chars@.subrange(start, i + 1));
        }
        i += 1;
    }
    let ghost before = lines@;
    lines.push(line);
    proof {
        lemma_line_end(chars@, len as int);
        lemma_line_end(chars@, start);
        assert(lines_from(chars@, start) =~= seq![chars@.subrange(start, len as int)]);
        let all = done.push(chars@.subrange(start, len as int));
        assert(lines_of(chars@) =~= all);
        assert forall|k: int| 0 <= k < lines@.len() implies (#[trigger] lines@[k])@ == all[k] by {
            if k < before.len() {
                assert(lines@[k] == before[k]);
            }
        }
    }
    lines
}

/// Splits a text into its words.
pub fn split_tokens(chars: &Vec<char>) -> (tokens: Vec<Vec<char>>)
    ensures
        tokens@.len() == tokens_of(chars@).len(),
        forall|i: int| 0 <= i < tokens@.len() ==> (#[trigger] tokens@[i])@ == tokens_of(chars@)[i],
        forall|i: int| 0 <= i < tokens@.len() ==> (#[trigger] tokens@[i])@.len() > 0,
{
    let mut tokens: Vec<Vec<char>> = Vec::new();
    let len = chars.len();
    let ghost mut done: Seq<Seq<char>> = Seq::empty();
    let mut i: usize = 0;
    while i < len
        invariant
            len == chars@.len(),
            i <= len,
            tokens@.len() == done.len(),
            forall|k: int| 0 <= k < tokens@.len() ==> (#[trigger] tokens@[k])@ == done[k],
            forall|k: int| 0 <= k < tokens@.len() ==> (#[trigger] tokens@[k])@.len() > 0,
            tokens_of(chars@) == done + tokens_from(chars@, i as int),
        decreases len - i,
    {
        if is_whitespace(chars[i]) {
            i += 1;
        } else {
            let start = i;
            let mut token: Vec<char> = Vec::new();
            while i < len && !is_whitespace(chars[i])
                invariant
                    len == chars@.len(),
                    start <= i <= len,
                    start < len,
                    !is_space(chars@[start as int]),
                    token@ == chars@.subrange(start as int, i as int),
                    word_end(chars@, start as int) == word_end(chars@, i as int),
                decreases len - i,
            {
                token.push(chars[i]);
                assert(token@ =~= chars@.subrange(start as int, i + 1));
                i += 1;
            }
            let ghost before = tokens@;
            proof {
                lemma_word_end(chars@, start as int);
                assert(word_end(chars@, i as int) == i);
                assert(tokens_from(chars@, start as int) =~= seq![token@] + tokens_from(
                    chars@,
                    i as int,
                ));
                assert(done + tokens_from(chars@, start as int) =~= done.push(token@) + tokens_from(
                    chars@,
                    i as int,
                ));
                done = done.push(token@);
            }
            tokens.push(token);
            proof {
                assert forall|k: int| 0 <= k < tokens@.len() implies (#[trigger] tokens@[k])@
                    == done[k] && tokens@[k]@.len() > 0 by {
                    if k < before.len() {
                        assert(tokens@[k] == before[k]);
                    }
                }
            }
        }
    }
    assert(tokens_of(chars@) =~= done);
    tokens
}

/// What each of some strings holds.
pub open spec fn strings_of(strings: Seq<String>) -> Seq<Seq<char>> {
    Seq::new(strings.len(), |i: int| strings[i]@)
}

/// The words one after the other, with the separator between each two.
pub open spec fn joined(words: Seq<Seq<char>>, separator: Seq<char>) -> Seq<char>
    decreases words.len(),
{
    if words.len() == 0 {
        Seq::empty()
    } else if words.len() == 1 {
        words[0]
    } else {
        joined(words.drop_last(), separator) + separator + words.last()
    }
}

/// Joins words, with the separator between each two.
pub fn join(words: &Vec<String>, separator: &str) -> (text: String)
    ensures
        text@ == joined(strings_of(words@), separator@),
{
    let mut text = String::new();
    let ghost all = strings_of(words@);
    let mut i: usize = 0;
    assert(all.take(0) =~= Seq::<Seq<char>>::empty());
    while i < words.len()
        invariant
            i <= words@.len(),
            all == strings_of(words@),
            text@ == joined(all.take(i as int), separator@),
        decreases words@.len() - i,
    {
        if i > 0 {
            text.append(separator);
        }
        text.append(words[i].as_str());
        proof {
            let next = all.take(i + 1);
            assert(next.drop_last() =~= all.take(i as int));
            assert(next.last() == words@[i as int]@);
            if i == 0 {
                assert(text@ =~= next[0]);
            }
        }
        i += 1;
    }
    assert(all.take(words@.len() as int) =~= all);
    text
}

/// The value of a decimal digit, and -1 for any other character.
pub open spec fn digit_value(c: char) -> int {
    if '0' <= c <= '9' {
        c as u32 - '0' as u32
    } else {
        -1
    }
}

/// The decimal digit of a value below ten.
pub open spec fn digit_char(value: int) -> char {
    if value == 0 {
        '0'
    } else if value == 1 {
        '1'
    } else if value == 2 {
        '2'
    } else if value == 3 {
        '3'
    } else if value == 4 {
        '4'
    } else if value == 5 {
        '5'
    } else if value == 6 {
        '6'
    } else if value == 7 {
        '7'
    } else if value == 8 {
        '8'
    } else {
        '9'
    }
}

/// Whether all characters are decimal digits.
pub open spec fn all_digits(s: Seq<char>) -> bool {
    forall|i: int| 0 <= i < s.len() ==> digit_value(#[trigger] s[i]) >= 0
}

/// The number that decimal digits spell.
pub open spec fn digits_value(s: Seq<char>) -> nat
    decreases s.len(),
{
    if s.len() == 0 {
        0
    } else {
        (digits_value(s.drop_last()) * 10 + digit_value(s.last())) as nat
    }
}

/// The digits of an unsigned number, without its sign if it has one.
pub open spec fn unsigned_body(s: Seq<char>) -> Seq<char> {
    if s.len() > 0 && s[0] == '+' {
        s.drop_first()
    } else {
        s
    }
}

/// The index that a text spells: an optional plus sign and then decimal digits, at least
/// one, whose value the machine can hold.
pub open spec fn parsed_index(s: Seq<char>) -> Option<usize> {
    let body = unsigned_body(s);
    if body.len() > 0 && all_digits(body) && digits_value(body) <= usize::MAX {
        Some(digits_value(body) as usize)
    } else {
        None
    }
}

/// The decimal digits of a number, without leading zeros.
pub open spec fn decimal(n: nat) -> Seq<char>
    decreases n,
{
    if n < 10 {
        seq![digit_char(n as int)]
    } else {
        decimal(n / 10).push(digit_char((n % 10) as int))
    }
}

/// A word: at least one character, and none that is white space.
pub open spec fn is_word(word: Seq<char>) -> bool {
    &&& word.len() > 0
    &&& forall|i: int| 0 <= i < word.len() ==> !is_space(#[trigger] word[i])
}

/// Whether each of some texts is a word.
pub open spec fn are_words(words: Seq<Seq<char>>) -> bool {
    forall|i: int| 0 <= i < words.len() ==> is_word(#[trigger] words[i])
}

/// Words that are joined start with the first word, and go on with the separator and the
/// other words joined, if there are others.
pub proof fn lemma_joined_first(words: Seq<Seq<char>>, separator: Seq<char>)
    requires
        words.len() > 0,
    ensures
        joined(words, separator) == if words.len() == 1 {
            words[0]
        } else {
            words[0] + separator + joined(words.drop_first(), separator)
        },
    decreases words.len(),
{
    if words.len() == 2 {
        assert(words.drop_last() =~= seq![words[0]]);
        assert(words.drop_first() =~= seq![words[1]]);
        assert(joined(words.drop_last(), separator) == words[0]);
        assert(joined(words.drop_first(), separator) == words[1]);
    } else if words.len() > 2 {
        let front = words.drop_last();
        lemma_joined_first(front, separator);
        assert(front.drop_first() =~= words.drop_first().drop_last());
        assert(front[0] == words[0]);
        assert(words.drop_first().last() == words.last());
        assert(joined(words, separator) =~= words[0] + separator + joined(
            words.drop_first(),
            separator,
        ));
    }
}

/// A stretch without white space that ends at the text's end or at white space is a word
/// of the text.
pub proof fn lemma_word_end_at(s: Seq<char>, from: int, to: int)
    requires
        0 <= from <= to <= s.len(),
        forall|i: int| from <= i < to ==> !is_space(#[trigger] s[i]),
        to < s.len() ==> is_space(s[to]),
    ensures
        word_end(s, from) == to,
    decreases to - from,
{
    if from < to {
        lemma_word_end_at(s, from + 1, to);
    }
}

/// The words of a text that was made by joining words with a space between each two are
/// these words.
pub proof fn lemma_tokens_joined(words: Seq<Seq<char>>, s: Seq<char>, from: int)
    requires
        are_words(words),
        0 <= from <= s.len(),
        s.subrange(from, s.len() as int) == joined(words, seq![' ']),
    ensures
        tokens_from(s, from) == words,
    decreases words.len(),
{
    let rest_text = s.subrange(from, s.len() as int);
    if words.len() == 0 {
        assert(rest_text.len() == 0);
        assert(tokens_from(s, from) =~= words);
    } else {
        lemma_joined_first(words, seq![' ']);
        let word = words[0];
        assert(is_word(word));
        let to = from + word.len();
        let after = if words.len() == 1 {
            Seq::<char>::empty()
        } else {
            seq![' '] + joined(words.drop_first(), seq![' '])
        };
        assert(rest_text =~= word + after);
        assert(rest_text.len() == s.len() - from);
        assert(to <= s.len());
        assert forall|i: int| from <= i < to implies !is_space(#[trigger] s[i]) by {
            assert(s[i] == rest_text[i - from]);
            assert(rest_text[i - from] == word[i - from]);
        }
        if words.len() == 1 {
            assert(to == s.len());
            lemma_word_end_at(s, from, to);
            assert(s.subrange(from, to) =~= word);
            assert(s[from] == rest_text[0]);
            assert(tokens_from(s, to) =~= Seq::<Seq<char>>::empty());
            assert(tokens_from(s, from) =~= words);
        } else {
            let rest = words.drop_first();
            let tail = joined(rest, seq![' ']);
            assert(rest_text =~= word + seq![' '] + tail);
            assert(s[to] == rest_text[to - from]);
            assert(s[to] == ' ');
            assert(is_space(' '));
            lemma_word_end_at(s, from, to);
            assert(s.subrange(from, to) =~= word);
            assert(s[from] == rest_text[0]);
            assert(s.subrange(to + 1, s.len() as int) =~= tail) by {
                assert forall|i: int| 0 <= i < tail.len() implies s.subrange(
                    to + 1,
                    s.len() as int,
                )[i] == tail[i] by {
                    assert(s[to + 1 + i] == rest_text[to + 1 + i - from]);
                }
            }
            assert(are_words(rest)) by {
                assert forall|i: int| 0 <= i < rest.len() implies is_word(#[trigger] rest[i]) by {
                    assert(rest[i] == words[i + 1]);
                }
            }
            lemma_tokens_joined(rest, s, to + 1);
            assert(tokens_from(s, to) == tokens_from(s, to + 1));
            assert(tokens_from(s, from) =~= seq![word] + rest);
            assert(seq![word] + rest =~= words);
        }
    }
}

/// Whether a text holds no line feed.
pub open spec fn is_line(line: Seq<char>) -> bool {
    forall|i: int| 0 <= i < line.len() ==> #[trigger] line[i] != '\n'
}

/// Whether each of some texts holds no line feed.
pub open spec fn are_lines(lines: Seq<Seq<char>>) -> bool {
    forall|i: int| 0 <= i < lines.len() ==> is_line(#[trigger] lines[i])
}

/// The first line of a text ends where its first line feed stands, or at its end.
pub proof fn lemma_line_end_at(s: Seq<char>, from: int, to: int)
    requires
        0 <= from <= to <= s.len(),
        forall|i: int| from <= i < to ==> #[trigger] s[i] != '\n',
        to < s.len() ==> s[to] == '\n',
    ensures
        line_end(s, from) == to,
    decreases to - from,
{
    if from < to {
        lemma_line_end_at(s, from + 1, to);
    }
}

/// The lines of a text that was made by joining lines with a line feed between each two
/// are these lines.
pub proof fn lemma_lines_joined(lines: Seq<Seq<char>>, s: Seq<char>, from: int)
    requires
        lines.len() > 0,
        are_lines(lines),
        0 <= from <= s.len(),
        s.subrange(from, s.len() as int) == joined(lines, seq!['\n']),
    ensures
        lines_from(s, from) == lines,
    decreases lines.len(),
{
    let rest_text = s.subrange(from, s.len() as int);
    lemma_joined_first(lines, seq!['\n']);
    let line = lines[0];
    assert(is_line(line));
    let to = from + line.len();
    let after = if lines.len() == 1 {
        Seq::<char>::empty()
    } else {
        seq!['\n'] + joined(lines.drop_first(), seq!['\n'])
    };
    assert(rest_text =~= line + after);
    assert(rest_text.len() == s.len() - from);
    assert(to <= s.len());
    assert forall|i: int| from <= i < to implies #[trigger] s[i] != '\n' by {
        assert(s[i] == rest_text[i - from]);
        assert(rest_text[i - from] == line[i - from]);
    }
    if lines.len() == 1 {
        assert(to == s.len());
        lemma_line_end_at(s, from, to);
        assert(s.subrange(from, to) =~= line);
        assert(lines_from(s, from) =~= lines);
    } else {
        let rest = lines.drop_first();
        let tail = joined(rest, seq!['\n']);
        assert(s[to] == rest_text[to - from]);
        lemma_line_end_at(s, from, to);
        assert(s.subrange(from, to) =~= line);
        assert(s.subrange(to + 1, s.len() as int) =~= tail) by {
            assert forall|i: int| 0 <= i < tail.len() implies s.subrange(to + 1, s.len() as int)[i]
                == tail[i] by {
                assert(s[to + 1 + i] == rest_text[to + 1 + i - from]);
            }
        }
        assert(are_lines(rest)) by {
            assert forall|i: int| 0 <= i < rest.len() implies is_line(#[trigger] rest[i]) by {
                assert(rest[i] == lines[i + 1]);
            }
        }
        lemma_lines_joined(rest, s, to + 1);
        assert(lines_from(s, from) =~= seq![line] + rest);
        assert(seq![line] + rest =~= lines);
    }
}

/// Joining two lists of texts one after the other joins what each of them joins.
pub proof fn lemma_joined_concat(first: Seq<Seq<char>>, second: Seq<Seq<char>>, separator: Seq<char>)
    requires
        first.len() > 0,
        second.len() > 0,
    ensures
        joined(first + second, separator) == joined(first, separator) + separator + joined(
            second,
            separator,
        ),
    decreases second.len(),
{
    let all = first + second;
    assert(all.drop_last() =~= first + second.drop_last());
    assert(all.last() == second.last());
    if second.len() == 1 {
        assert(first + second.drop_last() =~= first);
        assert(joined(second, separator) == second[0]);
    } else {
        lemma_joined_concat(first, second.drop_last(), separator);
        assert(joined(all, separator) =~= joined(first, separator) + separator + joined(
            second,
            separator,
        ));
    }
}

/// Words that are joined with a space between each two make a line.
pub proof fn lemma_words_make_line(words: Seq<Seq<char>>)
    requires
        are_words(words),
    ensures
        is_line(joined(words, seq![' '])),
    decreases words.len(),
{
    if words.len() == 1 {
        assert(is_word(words[0]));
        assert forall|i: int| 0 <= i < words[0].len() implies #[trigger] words[0][i] != '\n' by {
            assert(!is_space(words[0][i]));
            assert(is_space('\n'));
        }
    } else if words.len() > 1 {
        let front = words.drop_last();
        assert(are_words(front)) by {
            assert forall|i: int| 0 <= i < front.len() implies is_word(#[trigger] front[i]) by {
                assert(front[i] == words[i]);
            }
        }
        lemma_words_make_line(front);
        let last = words.last();
        assert(is_word(last));
        let text = joined(words, seq![' ']);
        let head = joined(front, seq![' ']);
        assert forall|i: int| 0 <= i < text.len() implies #[trigger] text[i] != '\n' by {
            if i < head.len() {
                assert(text[i] == head[i]);
            } else if i == head.len() {
                assert(text[i] == ' ');
            } else {
                assert(text[i] == last[i - head.len() - 1]);
                assert(!is_space(last[i - head.len() - 1]));
                assert(is_space('\n'));
            }
        }
    }
}

/// The decimal digits of a number are a word.
pub proof fn lemma_decimal_word(n: nat)
    ensures
        is_word(decimal(n)),
{
    lemma_decimal(n);
    assert forall|i: int| 0 <= i < decimal(n).len() implies !is_space(#[trigger] decimal(n)[i]) by {
        assert(digit_value(decimal(n)[i]) >= 0);
    }
}

/// Each digit has its value.
pub proof fn lemma_digit_char(value: int)
    requires
        0 <= value < 10,
    ensures
        digit_value(digit_char(value)) == value,
        digit_char(value) != '+',
{
}

/// The decimal digits of a number are digits, at least one, and spell the number.
pub proof fn lemma_decimal(n: nat)
    ensures
        decimal(n).len() > 0,
        all_digits(decimal(n)),
        digits_value(decimal(n)) == n,
        decimal(n)[0] != '+',
    decreases n,
{
    if n < 10 {
        lemma_digit_char(n as int);
        let s = decimal(n);
        assert(s.drop_last() =~= Seq::<char>::empty());
        assert(digits_value(s.drop_last()) == 0);
    } else {
        lemma_decimal(n / 10);
        lemma_digit_char((n % 10) as int);
        let s = decimal(n);
        assert(s.drop_last() =~= decimal(n / 10));
        assert(s[0] == decimal(n / 10)[0]);
        assert forall|i: int| 0 <= i < s.len() implies digit_value(#[trigger] s[i]) >= 0 by {
            if i < s.len() - 1 {
                assert(s[i] == decimal(n / 10)[i]);
            }
        }
    }
}

/// An index that is written in decimal digits is read as the same index.
pub proof fn lemma_decimal_parses(index: usize)
    ensures
        parsed_index(decimal(index as nat)) == Some(index),
{
    lemma_decimal(index as nat);
}

/// More digits do not spell a smaller number.
pub proof fn lemma_digits_value_grows(s: Seq<char>, count: int)
    requires
        all_digits(s),
        0 <= count <= s.len(),
    ensures
        digits_value(s.take(count)) <= digits_value(s),
    decreases s.len() - count,
{
    if count < s.len() {
        lemma_digits_value_grows(s, count + 1);
        assert(s.take(count + 1).drop_last() =~= s.take(count));
        assert(digit_value(s.take(count + 1).last()) >= 0) by {
            assert(s.take(count + 1).last() == s[count]);
        }
    } else {
        assert(s.take(count) =~= s);
    }
}

/// Reads an index: an optional plus sign and then decimal digits.
pub fn parse_index(chars: &Vec<char>) -> (index: Option<usize>)
    ensures
        index == parsed_index(chars@),
{
    let len = chars.len();
    let start: usize = if len > 0 && chars[0] == '+' {
        1
    } else {
        0
    };
    let ghost body = unsigned_body(chars@);
    assert(body =~= chars@.subrange(start as int, len as int));
    if start == len {
        return None;
    }
    let mut value: usize = 0;
    let mut i: usize = start;
    while i < len
        invariant
            start <= i <= len,
            len == chars@.len(),
            body == chars@.subrange(start as int, len as int),
            body == unsigned_body(chars@),
            all_digits(body.take(i - start)),
            value == digits_value(body.take(i - start)),
        decreases len - i,
    {
        let c = chars[i];
        assert(body[i - start] == c);
        if !('0' <= c && c <= '9') {
            assert(!all_digits(body)) by {
                assert(digit_value(body[i - start]) < 0);
            }
            return None;
        }
        let digit = (c as u32 - '0' as u32) as usize;
        let ghost next = body.take(i - start + 1);
        assert(next.drop_last() =~= body.take(i - start));
        assert(next.last() == c);
        assert(all_digits(next)) by {
            assert forall|j: int| 0 <= j < next.len() implies digit_value(#[trigger] next[j])
                >= 0 by {
                if j < i - start {
                    assert(next[j] == body.take(i - start)[j]);
                }
            }
        }
        if value > (usize::MAX - digit) / 10 {
            proof {
                assert(digits_value(next) > usize::MAX);
                if all_digits(body) {
                    lemma_digits_value_grows(body, i - start + 1);
                }
            }
            return None;
        }
        value = value * 10 + digit;
        i += 1;
    }
    assert(body.take(len - start) =~= body);
    Some(value)
}

/// Writes an index in decimal digits.
pub fn index_chars(index: usize) -> (chars: Vec<char>)
    ensures
        chars@ == decimal(index as nat),
{
    let mut digits: Vec<char> = Vec::new();
    let mut rest = index;
    // The digits from the last to the first.
    digits.push(digit_of(rest % 10));
    rest = rest / 10;
    let ghost mut tail: Seq<char> = seq![digit_char((index % 10) as int)];
    while rest > 0
        invariant
            digits@.len() == tail.len(),
            digits@.len() > 0,
            forall|i: int| 0 <= i < tail.len() ==> digits@[i] == tail[tail.len() - 1 - i],
            rest == 0 ==> decimal(index as nat) == tail,
            rest > 0 ==> decimal(index as nat) == decimal(rest as nat) + tail,
        decreases rest,
    {
        let ghost before = digits@;
        let ghost old_tail = tail;
        digits.push(digit_of(rest % 10));
        proof {
            tail = seq![digit_char((rest % 10) as int)] + tail;
            assert forall|i: int| 0 <= i < tail.len() implies digits@[i] == tail[tail.len() - 1
                - i] by {
                if i < before.len() {
                    assert(digits@[i] == before[i]);
                    assert(tail[tail.len() - 1 - i] == old_tail[old_tail.len() - 1 - i]);
                }
            }
            if rest < 10 {
                assert(decimal(rest as nat) + old_tail =~= tail);
            } else {
                assert(decimal(rest as nat) + old_tail =~= decimal((rest / 10) as nat) + tail);
            }
        }
        rest = rest / 10;
    }
    let mut chars: Vec<char> = Vec::new();
    let mut k: usize = digits.len();
    while k > 0
        invariant
            k <= digits@.len(),
            digits@.len() == tail.len(),
            forall|i: int| 0 <= i < tail.len() ==> digits@[i] == tail[tail.len() - 1 - i],
            chars@ == tail.take(tail.len() - k),
        decreases k,
    {
        k -= 1;
        chars.push(digits[k]);
        assert(chars@ =~= tail.take(tail.len() - k));
    }
    assert(tail.take(tail.len() as int) =~= tail);
    chars
}

/// The decimal digit of a value below ten.
fn digit_of(value: usize) -> (c: char)
    requires
        value < 10,
    ensures
        c == digit_char(value as int),
{
    if value == 0 {
        '0'
    } else if value == 1 {
        '1'
    } else if value == 2 {
        '2'
    } else if value == 3 {
        '3'
    } else if value == 4 {
        '4'
    } else if value == 5 {
        '5'
    } else if value == 6 {
        '6'
    } else if value == 7 {
        '7'
    } else if value == 8 {
        '8'
    } else {
        '9'
    }
}

} // verus!
