//! Words, lines and numbers in text.

use vstd::prelude::*;

verus! {

/// The character has the Unicode property `White_Space`: tab, line feed,
/// vertical tab, form feed, carriage return and space, and beyond ASCII the next
/// line, the no-break spaces, the spaces of various widths, and the line and
/// paragraph separators.
pub open spec fn white_space(c: char) -> bool {
    let u = c as int;
    ||| 0x9 <= u <= 0xd
    ||| u == 0x20
    ||| u == 0x85
    ||| u == 0xa0
    ||| u == 0x1680
    ||| 0x2000 <= u <= 0x200a
    ||| u == 0x2028
    ||| u == 0x2029
    ||| u == 0x202f
    ||| u == 0x205f
    ||| u == 0x3000
}

/// `char::is_whitespace`: whether the character has the Unicode property
/// `White_Space`.
#[verifier::external_body]
fn is_white_space(c: char) -> (r: bool)
    ensures
        r == white_space(c),
{
    c.is_whitespace()
}

/// `String::push`: appends the character.
pub assume_specification[ String::push ](s: &mut String, c: char)
    ensures
        final(s)@ == old(s)@.push(c),
;

/// `s` without leading white space.
pub open spec fn trimmed_start(s: Seq<char>) -> Seq<char>
    decreases s.len(),
{
    if s.len() > 0 && white_space(s[0]) {
        trimmed_start(s.skip(1))
    } else {
        s
    }
}

/// `s` without trailing white space.
pub open spec fn trimmed_end(s: Seq<char>) -> Seq<char>
    decreases s.len(),
{
    if s.len() > 0 && white_space(s.last()) {
        trimmed_end(s.drop_last())
    } else {
        s
    }
}

/// `s` without white space at either end.
pub open spec fn trimmed(s: Seq<char>) -> Seq<char> {
    trimmed_end(trimmed_start(s))
}

/// How many characters of `s` come before the first white space.
pub open spec fn word_len(s: Seq<char>) -> nat
    decreases s.len(),
{
    if s.len() == 0 || white_space(s[0]) {
        0
    } else {
        1 + word_len(s.skip(1))
    }
}

pub proof fn lemma_trimmed_start_len(s: Seq<char>)
    ensures
        trimmed_start(s).len() <= s.len(),
        trimmed_start(s).len() > 0 ==> !white_space(trimmed_start(s)[0]),
        trimmed_start(s) == s.skip(s.len() - trimmed_start(s).len()),
    decreases s.len(),
{
    if s.len() > 0 && white_space(s[0]) {
        lemma_trimmed_start_len(s.skip(1));
    }
    assert(trimmed_start(s) =~= s.skip(s.len() - trimmed_start(s).len()));
}

pub proof fn lemma_word_len(s: Seq<char>)
    ensures
        word_len(s) <= s.len(),
        s.len() > 0 && !white_space(s[0]) ==> word_len(s) > 0,
    decreases s.len(),
{
    if s.len() > 0 && !white_space(s[0]) {
        lemma_word_len(s.skip(1));
    }
}

/// The words of `s`: its longest stretches without white space, in order.
pub open spec fn words(s: Seq<char>) -> Seq<Seq<char>>
    decreases s.len(),
{
    let t = trimmed_start(s);
    if t.len() == 0 {
        Seq::empty()
    } else {
        proof {
            lemma_trimmed_start_len(s);
            lemma_word_len(t);
        }
        seq![t.take(word_len(t) as int)] + words(t.skip(word_len(t) as int))
    }
}

/// Where the first line feed of `s` stands, or the length of `s`.
pub open spec fn line_len(s: Seq<char>) -> nat
    decreases s.len(),
{
    if s.len() == 0 || s[0] == '\n' {
        0
    } else {
        1 + line_len(s.skip(1))
    }
}

/// `line`, which a line feed followed, without a carriage return at its end.
pub open spec fn without_cr(line: Seq<char>) -> Seq<char> {
    if line.len() > 0 && line.last() == '\r' {
        line.drop_last()
    } else {
        line
    }
}

/// The lines of `s`. A line ends with a line feed, or a carriage return and a
/// line feed, which are not part of it; the last line may lack its end.
pub open spec fn lines(s: Seq<char>) -> Seq<Seq<char>>
    decreases s.len(),
{
    let n = line_len(s) as int;
    if s.len() == 0 {
        Seq::empty()
    } else if n >= s.len() {
        seq![s]
    } else {
        seq![without_cr(s.take(n))] + lines(s.skip(n + 1))
    }
}

/// The last of `all` that is not blank.
pub open spec fn last_nonblank(all: Seq<Seq<char>>) -> Option<Seq<char>>
    decreases all.len(),
{
    if all.len() == 0 {
        None
    } else if trimmed(all.last()).len() > 0 {
        Some(all.last())
    } else {
        last_nonblank(all.drop_last())
    }
}

/// The digit for `d`.
pub open spec fn digit(d: nat) -> char {
    (48 + d) as char
}

/// `n` in decimal.
pub open spec fn decimal(n: nat) -> Seq<char>
    decreases n,
{
    if n < 10 {
        seq![digit(n)]
    } else {
        decimal(n / 10).push(digit(n % 10))
    }
}

/// The characters of `s`.
fn chars_of(s: &str) -> (chars: Vec<char>)
    ensures
        chars@ == s@,
{
    let mut chars: Vec<char> = Vec::new();
    for c in iter: s.chars()
        invariant
            iter.seq() == s@,
            chars@ == s@.take(iter.index() as int),
    {
        chars.push(c);
        assert(chars@ =~= s@.take(iter.index() + 1));
    }
    assert(chars@ =~= s@);
    chars
}

/// Where what is left of `chars[from..to]` starts once leading white space is gone.
fn skip_white_space(chars: &Vec<char>, from: usize, to: usize) -> (i: usize)
    requires
        from <= to <= chars@.len(),
    ensures
        from <= i <= to,
        chars@.subrange(i as int, to as int) == trimmed_start(
            chars@.subrange(from as int, to as int),
        ),
{
    let mut i: usize = from;
    while i < to && is_white_space(chars[i])
        invariant
            from <= i <= to <= chars@.len(),
            trimmed_start(chars@.subrange(i as int, to as int)) == trimmed_start(
                chars@.subrange(from as int, to as int),
            ),
        decreases to - i,
    {
        assert(chars@.subrange(i as int, to as int).skip(1) =~= chars@.subrange(
            i + 1,
            to as int,
        ));
        i = i + 1;
    }
    i
}

/// The bounds of `chars[from..to]` without white space at either end.
fn trim_bounds(chars: &Vec<char>, from: usize, to: usize) -> (bounds: (usize, usize))
    requires
        from <= to <= chars@.len(),
    ensures
        from <= bounds.0 <= bounds.1 <= to,
        chars@.subrange(bounds.0 as int, bounds.1 as int) == trimmed(
            chars@.subrange(from as int, to as int),
        ),
{
    let i: usize = skip_white_space(chars, from, to);
    let mut j: usize = to;
    while i < j && is_white_space(chars[j - 1])
        invariant
            i <= j <= to <= chars@.len(),
            trimmed_end(chars@.subrange(i as int, j as int)) == trimmed_end(
                chars@.subrange(i as int, to as int),
            ),
        decreases j - i,
    {
        assert(chars@.subrange(i as int, j as int).drop_last() =~= chars@.subrange(
            i as int,
            j - 1,
        ));
        j = j - 1;
    }
    (i, j)
}

/// `text` without white space at either end.
pub fn trim(text: &str) -> (r: &str)
    ensures
        r@ == trimmed(text@),
{
    let chars = chars_of(text);
    let (i, j) = trim_bounds(&chars, 0, chars.len());
    assert(chars@.subrange(0, chars@.len() as int) =~= text@);
    text.substring_char(i, j)
}

/// The words of `text`, in order.
pub fn split_whitespace(text: &str) -> (out: Vec<String>)
    ensures
        out@.map_values(|w: String| w@) == words(text@),
{
    let chars = chars_of(text);
    let end: usize = chars.len();
    let mut out: Vec<String> = Vec::new();
    let mut at: usize = 0;
    assert(chars@.subrange(0, end as int) =~= text@);
    assert(out@.map_values(|w: String| w@) + words(text@) =~= words(text@));
    loop
        invariant
            chars@ == text@,
            at <= end == chars@.len(),
            out@.map_values(|w: String| w@) + words(chars@.subrange(at as int, end as int))
                == words(text@),
        ensures
            out@.map_values(|w: String| w@) == words(text@),
        decreases end - at,
    {
        let ghost rest = chars@.subrange(at as int, end as int);
        let ghost before = out@;
        let i: usize = skip_white_space(&chars, at, end);
        let ghost t = chars@.subrange(i as int, end as int);
        proof {
            lemma_trimmed_start_len(rest);
            lemma_word_len(t);
        }
        if i == end {
            assert(words(rest) =~= Seq::empty());
            assert(out@.map_values(|w: String| w@) + words(rest) =~= out@.map_values(
                |w: String| w@,
            ));
            break;
        }
        let mut j: usize = i;
        assert(chars@.subrange(i as int, end as int) =~= t);
        while j < end && !is_white_space(chars[j])
            invariant
                i <= j <= end == chars@.len(),
                word_len(t) == j - i + word_len(chars@.subrange(j as int, end as int)),
            decreases end - j,
        {
            assert(chars@.subrange(j as int, end as int).skip(1) =~= chars@.subrange(
                j + 1,
                end as int,
            ));
            j = j + 1;
        }
        assert(word_len(t) == j - i);
        let word = text.substring_char(i, j).to_owned();
        assert(word@ =~= t.take(j - i));
        assert(chars@.subrange(j as int, end as int) =~= t.skip(j - i));
        out.push(word);
        assert(out@.map_values(|w: String| w@) =~= before.map_values(|w: String| w@).push(word@));
        assert(out@.map_values(|w: String| w@) + words(t.skip(j - i)) =~= before.map_values(
            |w: String| w@,
        ) + words(rest));
        at = j;
    }
    out
}

proof fn lemma_last_nonblank_append(done: Seq<Seq<char>>, line: Seq<char>)
    ensures
        last_nonblank(done.push(line)) == if trimmed(line).len() > 0 {
            Some(line)
        } else {
            last_nonblank(done)
        },
{
    assert(done.push(line).drop_last() =~= done);
}

/// The last line of `text` that is not blank.
pub fn last_nonblank_line(text: &str) -> (line: Option<&str>)
    ensures
        line is Some <==> last_nonblank(lines(text@)) is Some,
        line matches Some(l) ==> last_nonblank(lines(text@)) == Some(l@),
{
    let chars = chars_of(text);
    let end: usize = chars.len();
    let mut best: Option<(usize, usize)> = None;
    let mut at: usize = 0;
    let ghost mut done: Seq<Seq<char>> = Seq::empty();
    assert(chars@.subrange(0, end as int) =~= text@);
    assert(done + lines(text@) =~= lines(text@));
    while at < end
        invariant
            chars@ == text@,
            at <= end == chars@.len(),
            done + lines(chars@.subrange(at as int, end as int)) == lines(text@),
            match best {
                None => last_nonblank(done) is None,
                Some((i, j)) => i <= j <= end && last_nonblank(done) == Some(
                    chars@.subrange(i as int, j as int),
                ),
            },
        decreases end - at,
    {
        let ghost rest = chars@.subrange(at as int, end as int);
        let mut stop: usize = at;
        while stop < end && chars[stop] != '\n'
            invariant
                at <= stop <= end == chars@.len(),
                line_len(rest) == stop - at + line_len(chars@.subrange(stop as int, end as int)),
            decreases end - stop,
        {
            assert(chars@.subrange(stop as int, end as int).skip(1) =~= chars@.subrange(
                stop + 1,
                end as int,
            ));
            stop = stop + 1;
        }
        assert(line_len(rest) == stop - at);
        let mut line_end: usize = stop;
        let mut next: usize = end;
        if stop < end {
            if stop > at && chars[stop - 1] == '\r' {
                line_end = stop - 1;
            }
            next = stop + 1;
            assert(rest.take(stop - at) =~= chars@.subrange(at as int, stop as int));
            assert(rest.skip(stop - at + 1) =~= chars@.subrange(next as int, end as int));
            assert(chars@.subrange(at as int, line_end as int) =~= without_cr(
                rest.take(stop - at),
            ));
        } else {
            assert(chars@.subrange(next as int, end as int) =~= Seq::empty());
        }
        let ghost line = chars@.subrange(at as int, line_end as int);
        assert(lines(rest) =~= seq![line] + lines(chars@.subrange(next as int, end as int)));
        let (i, j) = trim_bounds(&chars, at, line_end);
        if i < j {
            best = Some((at, line_end));
        }
        proof {
            lemma_last_nonblank_append(done, line);
            assert(done.push(line) + lines(chars@.subrange(next as int, end as int)) =~= done
                + lines(rest));
            done = done.push(line);
        }
        at = next;
    }
    assert(chars@.subrange(end as int, end as int) =~= Seq::empty());
    assert(done + lines(Seq::empty()) =~= done);
    match best {
        None => None,
        Some((i, j)) => Some(text.substring_char(i, j)),
    }
}

/// `n` in decimal.
pub fn to_decimal(n: u16) -> (text: String)
    ensures
        text@ == decimal(n as nat),
    decreases n,
{
    let mut text = if n < 10 {
        String::new()
    } else {
        to_decimal(n / 10)
    };
    let d: u8 = (n % 10) as u8;
    let c: char = (48u8 + d) as char;
    text.push(c);
    assert(text@ =~= decimal(n as nat));
    text
}

/// White space in front plays no part in what is left without it.
proof fn lemma_trimmed_start_padded(before: Seq<char>, s: Seq<char>)
    requires
        forall|i: int| 0 <= i < before.len() ==> white_space(#[trigger] before[i]),
    ensures
        trimmed_start(before + s) == trimmed_start(s),
    decreases before.len(),
{
    let whole = before + s;
    if before.len() > 0 {
        let rest = before.skip(1);
        assert(whole[0] == before[0]);
        assert(whole.skip(1) =~= rest + s);
        assert forall|i: int| 0 <= i < rest.len() implies white_space(#[trigger] rest[i]) by {
            assert(rest[i] == before[i + 1]);
        }
        lemma_trimmed_start_padded(rest, s);
    } else {
        assert(whole =~= s);
    }
}

/// Trimming takes away the white space around a text that has none at its ends,
/// and that alone; nothing is left of a text that is all white space.
pub proof fn law_trim(before: Seq<char>, core: Seq<char>, after: Seq<char>)
    requires
        forall|i: int| 0 <= i < before.len() ==> white_space(#[trigger] before[i]),
        forall|i: int| 0 <= i < after.len() ==> white_space(#[trigger] after[i]),
        core.len() > 0 ==> !white_space(core[0]) && !white_space(core.last()),
    ensures
        trimmed(before + core + after) == core,
{
    if core.len() > 0 {
        crate::tls::lemma_trimmed_padded(before, core, after);
    } else {
        let all = before + core + after;
        let none = Seq::<char>::empty();
        assert forall|i: int| 0 <= i < all.len() implies white_space(#[trigger] all[i]) by {
            if i < before.len() {
                assert(all[i] == before[i]);
            } else {
                assert(all[i] == after[i - before.len()]);
            }
        }
        lemma_trimmed_start_padded(all, none);
        assert(all + none =~= all);
        assert(trimmed(all) =~= core);
    }
}

/// Something is left of a text when it is trimmed just when not all of it is
/// white space.
pub proof fn law_blank(s: Seq<char>)
    ensures
        trimmed(s).len() == 0 <==> forall|i: int|
            0 <= i < s.len() ==> white_space(#[trigger] s[i]),
{
    let none = Seq::<char>::empty();
    if forall|i: int| 0 <= i < s.len() ==> white_space(#[trigger] s[i]) {
        law_trim(s, none, none);
        assert(s + none + none =~= s);
    } else {
        lemma_trimmed_start_len(s);
        let t = trimmed_start(s);
        let j = choose|i: int| 0 <= i < s.len() && !white_space(#[trigger] s[i]);
        lemma_trimmed_start_keeps(s, j);
        lemma_trimmed_end_keeps(t, 0);
    }
}

proof fn lemma_trimmed_start_keeps(s: Seq<char>, j: int)
    requires
        0 <= j < s.len(),
        !white_space(s[j]),
    ensures
        trimmed_start(s).len() > 0,
    decreases s.len(),
{
    if white_space(s[0]) {
        assert(s.skip(1)[j - 1] == s[j]);
        lemma_trimmed_start_keeps(s.skip(1), j - 1);
    }
}

proof fn lemma_trimmed_end_keeps(s: Seq<char>, j: int)
    requires
        0 <= j < s.len(),
        !white_space(s[j]),
    ensures
        trimmed_end(s).len() > 0,
    decreases s.len(),
{
    if white_space(s.last()) {
        assert(s.drop_last()[j] == s[j]);
        lemma_trimmed_end_keeps(s.drop_last(), j);
    }
}

proof fn lemma_word_len_is(word: Seq<char>, rest: Seq<char>)
    requires
        forall|i: int| 0 <= i < word.len() ==> !white_space(#[trigger] word[i]),
        rest.len() > 0 ==> white_space(rest[0]),
    ensures
        word_len(word + rest) == word.len(),
    decreases word.len(),
{
    let whole = word + rest;
    if word.len() > 0 {
        let left = word.skip(1);
        assert(whole[0] == word[0]);
        assert(whole.skip(1) =~= left + rest);
        assert forall|i: int| 0 <= i < left.len() implies !white_space(#[trigger] left[i]) by {
            assert(left[i] == word[i + 1]);
        }
        lemma_word_len_is(left, rest);
    } else {
        assert(whole =~= rest);
    }
}

/// The first word of a text is the first stretch without white space, the words
/// after it are those of the rest, and white space alone holds no word.
pub proof fn law_words(before: Seq<char>, word: Seq<char>, rest: Seq<char>)
    requires
        forall|i: int| 0 <= i < before.len() ==> white_space(#[trigger] before[i]),
        forall|i: int| 0 <= i < word.len() ==> !white_space(#[trigger] word[i]),
        word.len() > 0,
        rest.len() > 0 ==> white_space(rest[0]),
    ensures
        words(before) == Seq::<Seq<char>>::empty(),
        words(before + word + rest) == seq![word] + words(rest),
{
    let none = Seq::<char>::empty();
    lemma_trimmed_start_padded(before, none);
    assert(before + none =~= before);
    let t = word + rest;
    assert(before + word + rest =~= before + t);
    lemma_trimmed_start_padded(before, t);
    assert(t[0] == word[0]);
    lemma_word_len_is(word, rest);
    assert(t.take(word.len() as int) =~= word);
    assert(t.skip(word.len() as int) =~= rest);
}

proof fn lemma_line_len_is(line: Seq<char>, rest: Seq<char>)
    requires
        forall|i: int| 0 <= i < line.len() ==> #[trigger] line[i] != '\n',
        rest.len() > 0 ==> rest[0] == '\n',
    ensures
        line_len(line + rest) == line.len(),
    decreases line.len(),
{
    let whole = line + rest;
    if line.len() > 0 {
        let left = line.skip(1);
        assert(whole[0] == line[0]);
        assert(whole.skip(1) =~= left + rest);
        assert forall|i: int| 0 <= i < left.len() implies #[trigger] left[i] != '\n' by {
            assert(left[i] == line[i + 1]);
        }
        lemma_line_len_is(left, rest);
    } else {
        assert(whole =~= rest);
    }
}

/// A line is what stands before a line feed, less one carriage return before it,
/// and the lines after it are those of the rest. What stands after the last line
/// feed is a line as it is, if there is anything.
pub proof fn law_lines(line: Seq<char>, rest: Seq<char>)
    requires
        forall|i: int| 0 <= i < line.len() ==> #[trigger] line[i] != '\n',
    ensures
        lines(Seq::empty()) == Seq::<Seq<char>>::empty(),
        line.len() > 0 ==> lines(line) == seq![line],
        line.len() == 0 || line.last() != '\r' ==> lines(line + seq!['\n'] + rest) == seq![line]
            + lines(rest),
        lines(line + seq!['\r', '\n'] + rest) == seq![line] + lines(rest),
{
    let none = Seq::<char>::empty();
    lemma_line_len_is(line, none);
    assert(line + none =~= line);
    lemma_one_line_and_more(line, rest);
    let with_cr = line.push('\r');
    assert forall|i: int| 0 <= i < with_cr.len() implies #[trigger] with_cr[i] != '\n' by {
        if i < line.len() {
            assert(with_cr[i] == line[i]);
        }
    }
    lemma_one_line_and_more(with_cr, rest);
    assert(with_cr + seq!['\n'] + rest =~= line + seq!['\r', '\n'] + rest);
    assert(with_cr.drop_last() =~= line);
}

proof fn lemma_one_line_and_more(line: Seq<char>, rest: Seq<char>)
    requires
        forall|i: int| 0 <= i < line.len() ==> #[trigger] line[i] != '\n',
    ensures
        lines(line + seq!['\n'] + rest) == seq![without_cr(line)] + lines(rest),
{
    let tail = seq!['\n'] + rest;
    let whole = line + tail;
    assert(line + seq!['\n'] + rest =~= whole);
    lemma_line_len_is(line, tail);
    let n = line.len() as int;
    assert(whole.take(n) =~= line);
    assert(whole.skip(n + 1) =~= rest);
}

/// The last line that is not blank is one that is not all white space, with
/// nothing but blank lines after it; there is none just when all are blank.
pub proof fn law_last_nonblank(all: Seq<Seq<char>>)
    ensures
        match last_nonblank(all) {
            Some(line) => exists|i: int|
                0 <= i < all.len() && #[trigger] all[i] == line && trimmed(all[i]).len() > 0
                    && forall|j: int| i < j < all.len() ==> trimmed(#[trigger] all[j]).len() == 0,
            None => forall|j: int| 0 <= j < all.len() ==> trimmed(#[trigger] all[j]).len() == 0,
        },
    decreases all.len(),
{
    if all.len() > 0 {
        let shorter = all.drop_last();
        law_last_nonblank(shorter);
        if trimmed(all.last()).len() > 0 {
            assert(all[all.len() - 1] == all.last());
        } else {
            match last_nonblank(shorter) {
                Some(line) => {
                    let i = choose|i: int|
                        0 <= i < shorter.len() && #[trigger] shorter[i] == line && trimmed(
                            shorter[i],
                        ).len() > 0 && forall|j: int|
                            i < j < shorter.len() ==> trimmed(#[trigger] shorter[j]).len() == 0;
                    assert(all[i] == line);
                    assert forall|j: int| i < j < all.len() implies trimmed(
                        #[trigger] all[j],
                    ).len() == 0 by {
                        if j < shorter.len() {
                            assert(shorter[j] == all[j]);
                        }
                    }
                },
                None => {
                    assert forall|j: int| 0 <= j < all.len() implies trimmed(
                        #[trigger] all[j],
                    ).len() == 0 by {
                        if j < shorter.len() {
                            assert(shorter[j] == all[j]);
                        }
                    }
                },
            }
        }
    }
}

/// The number that decimal digits spell.
pub open spec fn decimal_value(digits: Seq<char>) -> int
    decreases digits.len(),
{
    if digits.len() == 0 {
        0
    } else {
        10 * decimal_value(digits.drop_last()) + (digits.last() as int - '0' as int)
    }
}

/// A number in decimal is all digits, they spell the number, and none of them is a
/// zero in front of others.
pub proof fn law_decimal(n: nat)
    ensures
        decimal_value(decimal(n)) == n,
        decimal(n).len() > 0,
        forall|i: int|
            0 <= i < decimal(n).len() ==> '0' as int <= (#[trigger] decimal(n)[i]) as int
                <= '9' as int,
        decimal(n).len() > 1 ==> decimal(n)[0] != '0',
        n > 0 ==> decimal(n)[0] != '0',
    decreases n,
{
    let text = decimal(n);
    let d = text.last();
    if n < 10 {
        reveal_with_fuel(decimal_value, 2);
        assert(text.drop_last() =~= Seq::empty());
    } else {
        let front = decimal(n / 10);
        law_decimal(n / 10);
        assert(text.drop_last() =~= front);
        assert(text[0] == front[0]);
        assert forall|i: int| 0 <= i < text.len() implies '0' as int <= (
        #[trigger] text[i]) as int <= '9' as int by {
            if i < front.len() {
                assert(text[i] == front[i]);
            }
        }
    }
}

} // verus!
