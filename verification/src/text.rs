//! Lines, words and characters of a byte stream.
//!
//! A line is a maximal run of bytes up to and including one newline
//! terminator, or the final unterminated run.  A word is a maximal run of
//! non-whitespace bytes.  Characters are counted as UTF-8 scalar starts:
//! every byte that is not a continuation byte begins one code point, so on
//! well-formed UTF-8 input the character count is the code point count.

use vstd::prelude::*;

verus! {

/// The line terminator byte.
pub const NEWLINE: u8 = 10;

/// Whether `b` is an ASCII whitespace byte: tab, newline, vertical tab,
/// form feed, carriage return or space.
pub open spec fn is_space_byte(b: u8) -> bool {
    b == 9 || b == 10 || b == 11 || b == 12 || b == 13 || b == 32
}

/// Executable test for [`is_space_byte`].
pub fn byte_is_space(b: u8) -> (r: bool)
    ensures
        r == is_space_byte(b),
{
    b == 9 || b == 10 || b == 11 || b == 12 || b == 13 || b == 32
}

/// Whether `b` begins a UTF-8 code point (it is not a continuation byte).
pub open spec fn is_char_start(b: u8) -> bool {
    !(128 <= b && b < 192)
}

/// Executable test for [`is_char_start`].
pub fn byte_is_char_start(b: u8) -> (r: bool)
    ensures
        r == is_char_start(b),
{
    !(128 <= b && b < 192)
}

/// Length of the first line of `s`: one past the first newline, or all of
/// `s` when it holds no newline.
pub open spec fn line_split(s: Seq<u8>) -> int
    decreases s.len(),
{
    if s.len() == 0 {
        0
    } else if s[0] == NEWLINE {
        1
    } else {
        1 + line_split(s.drop_first())
    }
}

/// The first line of a nonempty stream is nonempty and lies within it, no
/// byte before its terminator is a newline, and it ends with a newline
/// unless it reaches the end of the stream.
pub proof fn lemma_line_split_bounds(s: Seq<u8>)
    ensures
        s.len() == 0 ==> line_split(s) == 0,
        s.len() > 0 ==> 1 <= line_split(s) <= s.len(),
        forall|i: int| 0 <= i < line_split(s) - 1 ==> s[i] != NEWLINE,
        line_split(s) < s.len() ==> s[line_split(s) - 1] == NEWLINE,
    decreases s.len(),
{
    if s.len() > 0 && s[0] != NEWLINE {
        let t = s.drop_first();
        lemma_line_split_bounds(t);
        assert forall|i: int| 0 <= i < line_split(s) - 1 implies s[i] != NEWLINE by {
            if i > 0 {
                assert(s[i] == t[i - 1]);
            }
        }
    }
}

/// The split point is determined by the position of the first newline:
/// when no byte before `k` is a newline and `s[k]` is one (or `k` is the
/// length of `s`), the first line ends right after `k` (or at `k`).
pub proof fn lemma_line_split_at(s: Seq<u8>, k: int)
    requires
        0 <= k <= s.len(),
        forall|i: int| 0 <= i < k ==> s[i] != NEWLINE,
        k < s.len() ==> s[k] == NEWLINE,
    ensures
        line_split(s) == if k < s.len() { k + 1 } else { k },
    decreases s.len(),
{
    if s.len() > 0 && s[0] != NEWLINE {
        let t = s.drop_first();
        assert(forall|i: int| 0 <= i < k - 1 ==> t[i] != NEWLINE);
        lemma_line_split_at(t, k - 1);
    }
}

/// The lines of a byte stream, each including its terminator when present.
pub open spec fn spec_lines(s: Seq<u8>) -> Seq<Seq<u8>>
    decreases s.len(),
    via spec_lines_decreases
{
    if s.len() == 0 {
        Seq::empty()
    } else {
        seq![s.take(line_split(s))] + spec_lines(s.skip(line_split(s)))
    }
}

#[via_fn]
proof fn spec_lines_decreases(s: Seq<u8>) {
    lemma_line_split_bounds(s);
}

/// Concatenation of a sequence of byte sequences, in order.
pub open spec fn concat_all(ls: Seq<Seq<u8>>) -> Seq<u8>
    decreases ls.len(),
{
    if ls.len() == 0 {
        Seq::empty()
    } else {
        ls[0] + concat_all(ls.drop_first())
    }
}

/// Splitting a stream into lines loses nothing: the lines concatenate
/// back to the stream itself.
pub proof fn lemma_lines_concat(s: Seq<u8>)
    ensures
        concat_all(spec_lines(s)) == s,
    decreases s.len(),
{
    if s.len() > 0 {
        lemma_line_split_bounds(s);
        let n = line_split(s);
        lemma_lines_concat(s.skip(n));
        assert(spec_lines(s).drop_first() =~= spec_lines(s.skip(n)));
        assert(s.take(n) + s.skip(n) =~= s);
    }
}

/// Concatenation splits at any index: the first `i` pieces, then the rest.
pub proof fn lemma_concat_all_split(ls: Seq<Seq<u8>>, i: int)
    requires
        0 <= i <= ls.len(),
    ensures
        concat_all(ls) == concat_all(ls.take(i)) + concat_all(ls.skip(i)),
    decreases i,
{
    if i == 0 {
        assert(ls.take(0) =~= Seq::<Seq<u8>>::empty());
        assert(ls.skip(0) =~= ls);
        assert(concat_all(ls.take(0)) + concat_all(ls.skip(0)) =~= concat_all(ls));
    } else {
        let t = ls.drop_first();
        lemma_concat_all_split(t, i - 1);
        assert(ls.take(i).drop_first() =~= t.take(i - 1));
        assert(ls.skip(i) =~= t.skip(i - 1));
        assert(ls[0] + (concat_all(t.take(i - 1)) + concat_all(t.skip(i - 1)))
            =~= (ls[0] + concat_all(t.take(i - 1))) + concat_all(t.skip(i - 1)));
    }
}

/// Extending a concatenated prefix by one piece appends that piece.
pub proof fn lemma_concat_all_take_succ(ls: Seq<Seq<u8>>, i: int)
    requires
        0 <= i < ls.len(),
    ensures
        concat_all(ls.take(i + 1)) == concat_all(ls.take(i)) + ls[i],
{
    lemma_concat_all_split(ls.take(i + 1), i);
    assert(ls.take(i + 1).take(i) =~= ls.take(i));
    assert(ls.take(i + 1).skip(i) =~= seq![ls[i]]);
    assert(seq![ls[i]].drop_first() =~= Seq::<Seq<u8>>::empty());
    assert(concat_all(seq![ls[i]]) =~= ls[i] + concat_all(Seq::<Seq<u8>>::empty()));
    assert(concat_all(ls.take(i)) + (ls[i] + Seq::<u8>::empty()) =~= concat_all(ls.take(i)) + ls[i]);
}

/// Number of newline bytes in `s`.
pub open spec fn count_newlines(s: Seq<u8>) -> nat
    decreases s.len(),
{
    if s.len() == 0 {
        0
    } else {
        (if s[0] == NEWLINE {
            1nat
        } else {
            0nat
        }) + count_newlines(s.drop_first())
    }
}

/// Counting newlines distributes over splitting the stream.
pub proof fn lemma_count_newlines_split(s: Seq<u8>, j: int)
    requires
        0 <= j <= s.len(),
    ensures
        count_newlines(s) == count_newlines(s.take(j)) + count_newlines(s.skip(j)),
    decreases j,
{
    if j == 0 {
        assert(s.take(0) =~= Seq::<u8>::empty());
        assert(s.skip(0) =~= s);
    } else {
        let t = s.drop_first();
        lemma_count_newlines_split(t, j - 1);
        assert(s.take(j).drop_first() =~= t.take(j - 1));
        assert(s.skip(j) =~= t.skip(j - 1));
        assert(s.take(j)[0] == s[0]);
    }
}

/// A stream without newline bytes counts none.
pub proof fn lemma_count_newlines_none(s: Seq<u8>)
    requires
        forall|i: int| 0 <= i < s.len() ==> s[i] != NEWLINE,
    ensures
        count_newlines(s) == 0,
    decreases s.len(),
{
    if s.len() > 0 {
        lemma_count_newlines_none(s.drop_first());
    }
}

/// How many lines a stream has, exactly: one per terminator, plus one
/// more when the stream is nonempty and its last byte is unterminated.
pub proof fn lemma_line_count(s: Seq<u8>)
    ensures
        spec_lines(s).len() == count_newlines(s) + if s.len() > 0 && s.last() != NEWLINE {
            1nat
        } else {
            0nat
        },
    decreases s.len(),
{
    if s.len() > 0 {
        lemma_line_split_bounds(s);
        let n = line_split(s);
        let first = s.take(n);
        let rest = s.skip(n);
        lemma_line_count(rest);
        lemma_count_newlines_split(s, n);
        lemma_count_newlines_split(first, n - 1);
        assert(first.take(n - 1) =~= s.take(n - 1));
        assert(forall|i: int| 0 <= i < n - 1 ==> #[trigger] s.take(n - 1)[i] != NEWLINE);
        lemma_count_newlines_none(s.take(n - 1));
        assert(first.skip(n - 1) =~= seq![s[n - 1]]);
        assert(seq![s[n - 1]][0] == s[n - 1]);
        assert(seq![s[n - 1]].len() == 1);
        assert(seq![s[n - 1]].drop_first() =~= Seq::<u8>::empty());
        assert(count_newlines(Seq::<u8>::empty()) == 0);
        assert(count_newlines(seq![s[n - 1]].drop_first()) == 0);
        assert(count_newlines(seq![s[n - 1]]) == if s[n - 1] == NEWLINE {
            1nat
        } else {
            0nat
        });
        assert(spec_lines(s).len() == 1 + spec_lines(rest).len());
        if n < s.len() {
            assert(s[n - 1] == NEWLINE);
            assert(rest.len() > 0);
            assert(rest.last() == s.last());
        } else {
            assert(rest =~= Seq::<u8>::empty());
            assert(s.last() == s[n - 1]);
        }
    }
}

/// Number of words remaining in `s` when the byte before `s`, if any, was
/// a whitespace byte exactly when `after_space` holds.  A word begins at
/// every non-whitespace byte that follows a whitespace byte or the start.
pub open spec fn words_rec(s: Seq<u8>, after_space: bool) -> nat
    decreases s.len(),
{
    if s.len() == 0 {
        0
    } else {
        (if after_space && !is_space_byte(s[0]) {
            1nat
        } else {
            0nat
        }) + words_rec(s.drop_first(), is_space_byte(s[0]))
    }
}

/// Number of maximal whitespace-separated words in `s`.
pub open spec fn spec_word_count(s: Seq<u8>) -> nat {
    words_rec(s, true)
}

/// Number of UTF-8 code point starts in `s`.
pub open spec fn spec_char_count(s: Seq<u8>) -> nat
    decreases s.len(),
{
    if s.len() == 0 {
        0
    } else {
        (if is_char_start(s[0]) {
            1nat
        } else {
            0nat
        }) + spec_char_count(s.drop_first())
    }
}

/// A stream holds no more words than bytes.
pub proof fn lemma_words_le_len(s: Seq<u8>, after_space: bool)
    ensures
        words_rec(s, after_space) <= s.len(),
    decreases s.len(),
{
    if s.len() > 0 {
        lemma_words_le_len(s.drop_first(), is_space_byte(s[0]));
    }
}

/// A stream holds no more code point starts than bytes.
pub proof fn lemma_chars_le_len(s: Seq<u8>)
    ensures
        spec_char_count(s) <= s.len(),
    decreases s.len(),
{
    if s.len() > 0 {
        lemma_chars_le_len(s.drop_first());
    }
}

/// Word counting distributes over concatenation, carrying the whitespace
/// state of the boundary byte across the seam.
pub proof fn lemma_words_append(a: Seq<u8>, b: Seq<u8>, after_space: bool)
    ensures
        words_rec(a + b, after_space) == words_rec(a, after_space) + words_rec(
            b,
            if a.len() > 0 {
                is_space_byte(a.last())
            } else {
                after_space
            },
        ),
    decreases a.len(),
{
    if a.len() == 0 {
        assert(a + b =~= b);
    } else {
        assert((a + b).drop_first() =~= a.drop_first() + b);
        lemma_words_append(a.drop_first(), b, is_space_byte(a[0]));
        if a.len() == 1 {
            assert(a.drop_first().len() == 0);
            assert(a.last() == a[0]);
        } else {
            assert(a.drop_first().last() == a.last());
        }
    }
}

/// Character counting distributes over concatenation.
pub proof fn lemma_chars_append(a: Seq<u8>, b: Seq<u8>)
    ensures
        spec_char_count(a + b) == spec_char_count(a) + spec_char_count(b),
    decreases a.len(),
{
    if a.len() == 0 {
        assert(a + b =~= b);
    } else {
        assert((a + b).drop_first() =~= a.drop_first() + b);
        lemma_chars_append(a.drop_first(), b);
    }
}

/// Copy the byte range `[from, to)` of `v` into a fresh vector.
pub fn copy_range(v: &Vec<u8>, from: usize, to: usize) -> (r: Vec<u8>)
    requires
        from <= to <= v@.len(),
    ensures
        r@ == v@.subrange(from as int, to as int),
{
    let mut r: Vec<u8> = Vec::new();
    let mut i: usize = from;
    while i < to
        invariant
            from <= i <= to <= v@.len(),
            r@ == v@.subrange(from as int, i as int),
        decreases to - i,
    {
        r.push(v[i]);
        i = i + 1;
        assert(r@ =~= v@.subrange(from as int, i as int));
    }
    r
}

/// Append all bytes of `src` to `dst`.
pub fn push_all(dst: &mut Vec<u8>, src: &Vec<u8>)
    ensures
        final(dst)@ == old(dst)@ + src@,
{
    let mut i: usize = 0;
    while i < src.len()
        invariant
            i <= src@.len(),
            dst@ == old(dst)@ + src@.subrange(0, i as int),
        decreases src@.len() - i,
    {
        dst.push(src[i]);
        i = i + 1;
        assert(dst@ =~= old(dst)@ + src@.subrange(0, i as int));
    }
    assert(dst@ =~= old(dst)@ + src@);
}

/// Split `text` into its lines, terminators kept.
pub fn lines_of(text: &Vec<u8>) -> (lines: Vec<Vec<u8>>)
    ensures
        lines.deep_view() == spec_lines(text@),
{
    let len = text.len();
    let mut lines: Vec<Vec<u8>> = Vec::new();
    let mut pos: usize = 0;
    proof {
        assert(text@.skip(0) =~= text@);
        assert(lines.deep_view() + spec_lines(text@) =~~= spec_lines(text@));
    }
    while pos < len
        invariant
            0 <= pos <= len,
            len == text@.len(),
            spec_lines(text@) == lines.deep_view() + spec_lines(text@.skip(pos as int)),
        decreases len - pos,
    {
        let ghost rest = text@.skip(pos as int);
        let mut j: usize = pos;
        while j < len && text[j] != NEWLINE
            invariant
                pos <= j <= len,
                len == text@.len(),
                forall|i: int| pos <= i < j ==> text@[i] != NEWLINE,
            decreases len - j,
        {
            j = j + 1;
        }
        let end: usize = if j < len {
            j + 1
        } else {
            len
        };
        proof {
            assert(forall|i: int| 0 <= i < j - pos ==> rest[i] != NEWLINE);
            lemma_line_split_at(rest, j - pos);
            assert(line_split(rest) == end - pos);
        }
        let line = copy_range(text, pos, end);
        proof {
            assert(line@ =~= rest.take(line_split(rest)));
            assert(text@.skip(end as int) =~= rest.skip(line_split(rest)));
            assert(spec_lines(rest) == seq![rest.take(line_split(rest))] + spec_lines(
                rest.skip(line_split(rest)),
            ));
        }
        let ghost prev = lines.deep_view();
        lines.push(line);
        proof {
            assert(lines.deep_view() =~~= prev.push(line@));
            assert(prev.push(line@) =~= prev + seq![line@]);
            assert((prev + seq![line@]) + spec_lines(text@.skip(end as int)) =~= prev + (seq![
                line@,
            ] + spec_lines(text@.skip(end as int))));
        }
        pos = end;
    }
    proof {
        assert(text@.skip(pos as int) =~= Seq::<u8>::empty());
        assert(lines.deep_view() + spec_lines(text@.skip(pos as int)) =~= lines.deep_view());
    }
    lines
}

} // verus!
