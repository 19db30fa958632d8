//! The text formatter: greedy word wrapping with a hard column-width limit,
//! forced mid-word splitting, uppercasing, and trailing-whitespace trimming.

use vstd::prelude::*;

verus! {

/// The line-break byte.
pub const NL: u8 = 10;

/// The space byte.
pub const SP: u8 = 32;

/// ASCII uppercasing of one byte: lowercase letters are shifted, every other
/// byte passes through unchanged.
pub open spec fn upper_byte(b: u8) -> u8 {
    if 97 <= b && b <= 122 {
        (b - 32) as u8
    } else {
        b
    }
}

/// ASCII uppercasing of a byte sequence.
pub open spec fn upper(s: Seq<u8>) -> Seq<u8> {
    s.map_values(|b: u8| upper_byte(b))
}

/// Length of the word (maximal run of non-space, non-newline bytes) starting
/// at index `i`.
pub open spec fn word_len_at(text: Seq<u8>, i: int) -> nat
    decreases text.len() - i,
{
    if i < 0 || i >= text.len() || text[i] == SP || text[i] == NL {
        0
    } else {
        1 + word_len_at(text, i + 1)
    }
}

/// Placing one word starting at column `pos` on lines of width `w`: the
/// number of line breaks emitted, the emitted bytes (uppercased word content
/// with forced line breaks), and the column position after the word.
///
/// A word that fits in the room left on the line is emitted whole. With no
/// usable room left (none, or a single column, which would make a degenerate
/// one-byte fragment) the line is broken early; otherwise the word fills all
/// but the last free column and is broken there.
pub open spec fn split_word(word: Seq<u8>, w: int, pos: int) -> (int, Seq<u8>, int)
    decreases word.len(), (if w - pos >= 2 { 0int } else { 1int }),
{
    if word.len() == 0 {
        (0, word, pos)
    } else if w < 2 {
        // degenerate width, ruled out by the formatter's precondition
        (0, upper(word), pos)
    } else if pos + word.len() <= w {
        (0, upper(word), pos + word.len())
    } else if w - pos <= 1 {
        let r = split_word(word, w, 0);
        (r.0 + 1, seq![NL] + r.1, r.2)
    } else {
        let take = w - pos - 1;
        let r = split_word(word.skip(take), w, 0);
        (r.0 + 1, upper(word.take(take)) + seq![NL] + r.1, r.2)
    }
}

/// The formatting scan from input index `i` at column `pos`: the number of
/// line breaks emitted and the bytes emitted. A newline passes through and
/// resets the column; a space is copied only while the column is within the
/// width; a word is placed by `split_word`.
pub open spec fn fmt_from(text: Seq<u8>, w: int, i: int, pos: int) -> (int, Seq<u8>)
    decreases text.len() - i,
    via fmt_from_decreases
{
    if i < 0 || i >= text.len() {
        (0, Seq::empty())
    } else if text[i] == NL {
        let r = fmt_from(text, w, i + 1, 0);
        (r.0 + 1, seq![NL] + r.1)
    } else if text[i] == SP {
        if pos < w {
            let r = fmt_from(text, w, i + 1, pos + 1);
            (r.0, seq![SP] + r.1)
        } else {
            fmt_from(text, w, i + 1, pos)
        }
    } else {
        let wl = 1 + word_len_at(text, i + 1);
        let s = split_word(text.subrange(i, i + wl), w, pos);
        let r = fmt_from(text, w, i + wl, s.2);
        (s.0 + r.0, s.1 + r.1)
    }
}

proof fn lemma_word_len_at_bound(text: Seq<u8>, i: int)
    requires
        0 <= i <= text.len(),
    ensures
        word_len_at(text, i) <= text.len() - i,
    decreases text.len() - i,
{
    if i < text.len() && text[i] != SP && text[i] != NL {
        lemma_word_len_at_bound(text, i + 1);
    }
}

#[via_fn]
proof fn fmt_from_decreases(text: Seq<u8>, w: int, i: int, pos: int) {
    if 0 <= i && i < text.len() && text[i] != NL && text[i] != SP {
        lemma_word_len_at_bound(text, i + 1);
    }
}

/// Whether a byte is trimmed from the end of the output.
pub open spec fn is_trail_ws(b: u8) -> bool {
    b == SP || b == NL
}

/// Trailing-whitespace trim: trailing spaces and line breaks are dropped;
/// each dropped line break decrements the break count, saturating at zero.
pub open spec fn trim_trailing(s: Seq<u8>, lc: int) -> (int, Seq<u8>)
    decreases s.len(),
{
    if s.len() > 0 && is_trail_ws(s.last()) {
        let lc2 = if s.last() == NL && lc > 0 {
            lc - 1
        } else {
            lc
        };
        trim_trailing(s.drop_last(), lc2)
    } else {
        (lc, s)
    }
}

/// The whole formatter: the reported line count (number of newline-delimited
/// segments, always at least one) and the formatted bytes.
pub open spec fn format_spec(text: Seq<u8>, w: int) -> (int, Seq<u8>) {
    let r = fmt_from(text, w, 0, 0);
    let t = trim_trailing(r.1, r.0);
    (t.0 + 1, t.1)
}

/// Number of line-break bytes in a sequence.
pub open spec fn count_nl(s: Seq<u8>) -> int
    decreases s.len(),
{
    if s.len() == 0 {
        0
    } else {
        count_nl(s.drop_last()) + if s.last() == NL {
            1int
        } else {
            0int
        }
    }
}

/// ASCII uppercasing of one byte, executable form.
pub fn to_upper_byte(b: u8) -> (r: u8)
    ensures
        r == upper_byte(b),
{
    if 97 <= b && b <= 122 {
        b - 32
    } else {
        b
    }
}

proof fn lemma_count_nl_bounds(s: Seq<u8>)
    ensures
        0 <= count_nl(s) <= s.len(),
        s.len() > 0 && s.last() != NL ==> count_nl(s) <= s.len() - 1,
    decreases s.len(),
{
    if s.len() > 0 {
        lemma_count_nl_bounds(s.drop_last());
    }
}

proof fn lemma_count_nl_push(s: Seq<u8>, b: u8)
    ensures
        count_nl(s.push(b)) == count_nl(s) + if b == NL {
            1int
        } else {
            0int
        },
{
    assert(s.push(b).drop_last() =~= s);
}

proof fn lemma_count_nl_concat(a: Seq<u8>, b: Seq<u8>)
    ensures
        count_nl(a + b) == count_nl(a) + count_nl(b),
    decreases b.len(),
{
    if b.len() == 0 {
        assert(a + b =~= a);
    } else {
        assert((a + b).drop_last() =~= a + b.drop_last());
        lemma_count_nl_concat(a, b.drop_last());
    }
}

/// Copies `count` uppercased bytes of `text` starting at `start` to `out`.
fn push_upper(out: &mut Vec<u8>, text: &[u8], start: usize, count: usize)
    requires
        start + count <= text@.len(),
    ensures
        final(out)@ == old(out)@ + upper(text@.subrange(start as int, start + count)),
{
    let n = text.len();
    let mut j: usize = 0;
    while j < count
        invariant
            j <= count,
            start + count <= text@.len(),
            text@.len() == n,
            out@ == old(out)@ + upper(text@.subrange(start as int, start + j)),
        decreases count - j,
    {
        let b = to_upper_byte(text[start + j]);
        out.push(b);
        proof {
            assert(upper(text@.subrange(start as int, start + j + 1)) =~= upper(
                text@.subrange(start as int, start + j),
            ).push(upper_byte(text@[start + j])));
            assert(out@ =~= old(out)@ + upper(text@.subrange(start as int, start + j + 1)));
        }
        j = j + 1;
    }
    proof {
        assert(out@ =~= old(out)@ + upper(text@.subrange(start as int, start + count)));
    }
}

proof fn lemma_word_len_at(text: Seq<u8>, i: int, k: int)
    requires
        0 <= i,
        i + k <= text.len(),
        0 <= k,
        forall|j: int| i <= j < i + k ==> text[j] != SP && text[j] != NL,
        i + k == text.len() || text[i + k] == SP || text[i + k] == NL,
    ensures
        word_len_at(text, i) == k,
    decreases k,
{
    if k > 0 {
        lemma_word_len_at(text, i + 1, k - 1);
    }
}

/// Formats raw byte text for lines of width `column_width`: uppercases,
/// wraps greedily at word boundaries, splits oversized words, drops spaces
/// that overflow a line, and trims trailing whitespace. Returns the number
/// of newline-delimited segments in the output (at least one) together with
/// the formatted bytes.
pub fn format_text(text: &[u8], column_width: usize) -> (r: (usize, Vec<u8>))
    requires
        2 <= column_width,
    ensures
        r.0 == format_spec(text@, column_width as int).0,
        r.1@ == format_spec(text@, column_width as int).1,
{
    let w = column_width;
    let n = text.len();
    let ghost t = text@;
    let ghost wi = w as int;
    let mut formatted: Vec<u8> = Vec::new();
    let mut pos: usize = 0;
    let mut i: usize = 0;
    let mut line_count: usize = 0;
    while i < text.len()
        invariant
            2 <= w,
            t == text@,
            wi == w as int,
            t.len() == n,
            i <= t.len(),
            pos <= w,
            line_count == count_nl(formatted@),
            fmt_from(t, wi, 0, 0).0 == line_count + fmt_from(t, wi, i as int, pos as int).0,
            fmt_from(t, wi, 0, 0).1 == formatted@ + fmt_from(t, wi, i as int, pos as int).1,
        decreases t.len() - i,
    {
        let c = text[i];
        let ghost f0 = formatted@;
        if c == NL {
            formatted.push(NL);
            proof {
                assert(formatted.len() <= usize::MAX);
                lemma_count_nl_bounds(f0);
            }
            line_count = line_count + 1;
            proof {
                lemma_count_nl_push(f0, NL);
                let rest = fmt_from(t, wi, i + 1, 0);
                assert(fmt_from(t, wi, i as int, pos as int).1 == seq![NL] + rest.1);
                assert(f0 + (seq![NL] + rest.1) =~= f0.push(NL) + rest.1);
            }
            pos = 0;
            i = i + 1;
        } else if c == SP {
            if pos < w {
                formatted.push(SP);
                proof {
                    lemma_count_nl_push(f0, SP);
                    let rest = fmt_from(t, wi, i + 1, pos + 1);
                    assert(fmt_from(t, wi, i as int, pos as int).1 == seq![SP] + rest.1);
                    assert(f0 + (seq![SP] + rest.1) =~= f0.push(SP) + rest.1);
                }
                pos = pos + 1;
            }
            i = i + 1;
        } else {
            // measure the word starting here
            let mut wlen: usize = 0;
            while i + wlen < text.len() && text[i + wlen] != SP && text[i + wlen] != NL
                invariant
                    t == text@,
                    t.len() == n,
                    i + wlen <= t.len(),
                    forall|j: int| i <= j < i + wlen ==> t[j] != SP && t[j] != NL,
                decreases t.len() - i - wlen,
            {
                wlen = wlen + 1;
            }
            proof {
                lemma_word_len_at(t, i as int, wlen as int);
            }
            let ghost i_end = i + wlen;
            let ghost word_full = t.subrange(i as int, i_end as int);
            proof {
                let swf = split_word(word_full, wi, pos as int);
                let r = fmt_from(t, wi, i_end as int, swf.2);
                assert(fmt_from(t, wi, i as int, pos as int).0 == swf.0 + r.0);
                assert(fmt_from(t, wi, i as int, pos as int).1 == swf.1 + r.1);
                assert(formatted@ + (swf.1 + r.1) =~= formatted@ + swf.1 + r.1);
            }
            // place the word, breaking lines as needed
            let mut remaining: usize = wlen;
            while remaining > 0
                invariant
                    2 <= w,
                    t == text@,
                    wi == w as int,
                    t.len() == n,
                    pos <= w,
                    i + remaining == i_end,
                    i_end <= t.len(),
                    line_count == count_nl(formatted@),
                    forall|j: int| i <= j < i_end ==> t[j] != SP && t[j] != NL,
                    fmt_from(t, wi, 0, 0).0 == line_count + split_word(
                        t.subrange(i as int, i_end as int),
                        wi,
                        pos as int,
                    ).0 + fmt_from(
                        t,
                        wi,
                        i_end as int,
                        split_word(t.subrange(i as int, i_end as int), wi, pos as int).2,
                    ).0,
                    fmt_from(t, wi, 0, 0).1 == formatted@ + split_word(
                        t.subrange(i as int, i_end as int),
                        wi,
                        pos as int,
                    ).1 + fmt_from(
                        t,
                        wi,
                        i_end as int,
                        split_word(t.subrange(i as int, i_end as int), wi, pos as int).2,
                    ).1,
                decreases remaining, (if pos + 2 <= w {
                    0int
                } else {
                    1int
                }),
            {
                let ghost cur = t.subrange(i as int, i_end as int);
                let ghost sw = split_word(cur, wi, pos as int);
                let ghost f0 = formatted@;
                if remaining <= w - pos {
                    // the rest of the word fits on this line
                    push_upper(&mut formatted, text, i, remaining);
                    proof {
                        assert(sw == (0int, upper(cur), pos + remaining));
                        assert(t.subrange(i as int, i + remaining) =~= cur);
                        assert(formatted@ =~= f0 + upper(cur));
                        lemma_count_nl_concat(f0, upper(cur));
                        lemma_upper_no_nl(cur);
                        lemma_count_nl_no_nl(upper(cur));
                        let r = fmt_from(t, wi, i_end as int, sw.2).1;
                        assert(f0 + sw.1 + r =~= (f0 + upper(cur)) + Seq::<u8>::empty() + r);
                    }
                    pos = pos + remaining;
                    i = i + remaining;
                    remaining = 0;
                    proof {
                        assert(t.subrange(i as int, i_end as int) =~= Seq::<u8>::empty());
                        assert(split_word(t.subrange(i as int, i_end as int), wi, pos as int) == (
                        0int,
                        Seq::<u8>::empty(),
                        pos as int,
                        ));
                    }
                } else if w - pos <= 1 {
                    // no usable room on this line: break it
                    formatted.push(NL);
                    proof {
                        assert(formatted.len() <= usize::MAX);
                        lemma_count_nl_bounds(f0);
                    }
                    line_count = line_count + 1;
                    pos = 0;
                    proof {
                        lemma_count_nl_push(f0, NL);
                        let r2 = split_word(cur, wi, 0);
                        assert(sw.0 == r2.0 + 1 && sw.1 == seq![NL] + r2.1 && sw.2 == r2.2);
                        let r = fmt_from(t, wi, i_end as int, sw.2).1;
                        assert(f0 + (seq![NL] + r2.1) + r =~= f0.push(NL) + r2.1 + r);
                    }
                } else {
                    // fill the line up to its last free column, then break
                    let take = w - pos - 1;
                    push_upper(&mut formatted, text, i, take);
                    proof {
                        assert(formatted.len() <= usize::MAX);
                        lemma_count_nl_concat(f0, upper(t.subrange(i as int, i + take)));
                        assert(cur.take(take as int) =~= t.subrange(i as int, i + take));
                        lemma_upper_no_nl(cur.take(take as int));
                        lemma_count_nl_no_nl(upper(cur.take(take as int)));
                        lemma_count_nl_push(f0 + upper(cur.take(take as int)), NL);
                        assert(formatted@ =~= f0 + upper(cur.take(take as int)));
                    }
                    formatted.push(NL);
                    proof {
                        assert(formatted.len() <= usize::MAX);
                        lemma_count_nl_bounds(f0);
                    }
                    line_count = line_count + 1;
                    proof {
                        let taken = upper(cur.take(take as int));
                        assert(formatted@ =~= (f0 + taken).push(NL));
                        let r2 = split_word(cur.skip(take as int), wi, 0);
                        assert(sw.0 == r2.0 + 1 && sw.1 == taken + seq![NL] + r2.1 && sw.2 == r2.2);
                        assert(cur.skip(take as int) =~= t.subrange(i + take, i_end as int));
                        let r = fmt_from(t, wi, i_end as int, sw.2).1;
                        assert(f0 + (taken + seq![NL] + r2.1) + r =~= ((f0 + taken).push(NL) + r2.1)
                            + r);
                    }
                    pos = 0;
                    i = i + take;
                    remaining = remaining - take;
                }
            }
            proof {
                assert(t.subrange(i as int, i_end as int) =~= Seq::<u8>::empty());
                assert(split_word(t.subrange(i as int, i_end as int), wi, pos as int) == (
                0int,
                Seq::<u8>::empty(),
                pos as int,
                ));
                let x = fmt_from(t, wi, i as int, pos as int);
                assert(formatted@ + Seq::<u8>::empty() + x.1 =~= formatted@ + x.1);
            }
        }
    }
    // trim trailing whitespace
    proof {
        assert(fmt_from(t, wi, i as int, pos as int).1 =~= Seq::<u8>::empty());
        assert(formatted@ + Seq::<u8>::empty() =~= formatted@);
        assert(formatted@ == fmt_from(t, wi, 0, 0).1);
    }
    let ghost lc0 = line_count as int;
    let ghost out0 = formatted@;
    loop
        invariant
            line_count == count_nl(formatted@),
            trim_trailing(out0, lc0) == trim_trailing(formatted@, line_count as int),
        ensures
            line_count == count_nl(formatted@),
            trim_trailing(out0, lc0) == (line_count as int, formatted@),
            formatted@.len() == 0 || !is_trail_ws(formatted@.last()),
        decreases formatted@.len(),
    {
        let n = formatted.len();
        if n == 0 {
            break;
        }
        let b = formatted[n - 1];
        if b != SP && b != NL {
            break;
        }
        let ghost before = formatted@;
        let _popped = formatted.pop();
        proof {
            assert(formatted@ =~= before.drop_last());
            lemma_count_nl_bounds(formatted@);
        }
        if b == NL && line_count > 0 {
            line_count = line_count - 1;
        }
    }
    proof {
        assert(formatted.len() <= usize::MAX);
        lemma_count_nl_bounds(formatted@);
    }
    (line_count + 1, formatted)
}

proof fn lemma_upper_no_nl(s: Seq<u8>)
    ensures
        forall|j: int| 0 <= j < upper(s).len() ==> (upper(s)[j] == NL <==> s[j] == NL),
{
}

proof fn lemma_count_nl_no_nl(s: Seq<u8>)
    requires
        forall|j: int| 0 <= j < s.len() ==> s[j] != NL,
    ensures
        count_nl(s) == 0,
    decreases s.len(),
{
    if s.len() > 0 {
        lemma_count_nl_no_nl(s.drop_last());
    }
}

proof fn lemma_count_nl_single(b: u8)
    ensures
        count_nl(seq![b]) == if b == NL {
            1int
        } else {
            0int
        },
{
    assert(seq![b].len() == 1);
    assert(seq![b].last() == b);
    assert(count_nl(Seq::<u8>::empty()) == 0);
    assert(seq![b].drop_last() =~= Seq::<u8>::empty());
}

/// Column accounting: scanning `s` from column `pos`, every byte that is not
/// a line break advances the column, which must never pass the width `w`.
pub open spec fn fits_width(s: Seq<u8>, pos: int, w: int) -> bool
    decreases s.len(),
{
    if s.len() == 0 {
        pos <= w
    } else if s[0] == NL {
        fits_width(s.skip(1), 0, w)
    } else {
        pos + 1 <= w && fits_width(s.skip(1), pos + 1, w)
    }
}

/// The column reached after scanning `s` from column `pos`.
pub open spec fn end_col(s: Seq<u8>, pos: int) -> int
    decreases s.len(),
{
    if s.len() == 0 {
        pos
    } else if s[0] == NL {
        end_col(s.skip(1), 0)
    } else {
        end_col(s.skip(1), pos + 1)
    }
}

/// No byte of `s` is a lowercase ASCII letter.
pub open spec fn no_lowercase(s: Seq<u8>) -> bool {
    forall|j: int| 0 <= j < s.len() ==> !(97 <= #[trigger] s[j] <= 122)
}

proof fn lemma_fits_concat(a: Seq<u8>, b: Seq<u8>, pos: int, w: int)
    requires
        fits_width(a, pos, w),
        fits_width(b, end_col(a, pos), w),
    ensures
        fits_width(a + b, pos, w),
        end_col(a + b, pos) == end_col(b, end_col(a, pos)),
    decreases a.len(),
{
    if a.len() == 0 {
        assert(a + b =~= b);
    } else {
        assert((a + b).skip(1) =~= a.skip(1) + b);
        if a[0] == NL {
            lemma_fits_concat(a.skip(1), b, 0, w);
        } else {
            lemma_fits_concat(a.skip(1), b, pos + 1, w);
        }
    }
}

proof fn lemma_fits_run(s: Seq<u8>, pos: int, w: int, k: int)
    requires
        fits_width(s, pos, w),
        pos <= w,
        0 <= k <= s.len(),
        forall|j: int| 0 <= j < k ==> s[j] != NL,
    ensures
        pos + k <= w,
        fits_width(s.skip(k), pos + k, w),
    decreases k,
{
    if k > 0 {
        assert(s.skip(1).skip(k - 1) =~= s.skip(k));
        lemma_fits_run(s.skip(1), pos + 1, w, k - 1);
    } else {
        assert(s.skip(0) =~= s);
    }
}

proof fn lemma_run_fits(s: Seq<u8>, pos: int, w: int)
    requires
        forall|j: int| 0 <= j < s.len() ==> s[j] != NL,
        pos + s.len() <= w,
    ensures
        fits_width(s, pos, w),
        end_col(s, pos) == pos + s.len(),
    decreases s.len(),
{
    if s.len() > 0 {
        lemma_run_fits(s.skip(1), pos + 1, w);
    }
}

proof fn lemma_split_word_fits(word: Seq<u8>, w: int, pos: int)
    requires
        2 <= w,
        0 <= pos <= w,
        forall|j: int| 0 <= j < word.len() ==> word[j] != NL,
    ensures
        ({
            let r = split_word(word, w, pos);
            &&& fits_width(r.1, pos, w)
            &&& end_col(r.1, pos) == r.2
            &&& 0 <= r.2 <= w
        }),
    decreases word.len(), (if w - pos >= 2 { 0int } else { 1int }),
{
    let r = split_word(word, w, pos);
    if word.len() == 0 {
    } else if pos + word.len() <= w {
        lemma_upper_no_nl(word);
        lemma_run_fits(upper(word), pos, w);
    } else if w - pos <= 1 {
        lemma_split_word_fits(word, w, 0);
        let r2 = split_word(word, w, 0);
        assert((seq![NL] + r2.1).skip(1) =~= r2.1);
    } else {
        let take = w - pos - 1;
        let u = upper(word.take(take));
        let r2 = split_word(word.skip(take), w, 0);
        lemma_split_word_fits(word.skip(take), w, 0);
        lemma_upper_no_nl(word.take(take));
        lemma_run_fits(u, pos, w);
        assert(seq![NL].skip(1) =~= Seq::<u8>::empty());
        assert(seq![NL][0] == NL);
        assert(fits_width(Seq::<u8>::empty(), 0, w));
        assert(end_col(Seq::<u8>::empty(), 0) == 0);
        assert(fits_width(seq![NL], pos + take, w));
        assert(end_col(seq![NL], pos + take) == 0);
        lemma_fits_concat(u, seq![NL], pos, w);
        lemma_fits_concat(u + seq![NL], r2.1, pos, w);
        assert(r.1 == (u + seq![NL]) + r2.1);
    }
}

proof fn lemma_split_word_count(word: Seq<u8>, w: int, pos: int)
    requires
        forall|j: int| 0 <= j < word.len() ==> word[j] != NL,
    ensures
        ({
            let r = split_word(word, w, pos);
            r.0 == count_nl(r.1)
        }),
    decreases word.len(), (if w - pos >= 2 { 0int } else { 1int }),
{
    let r = split_word(word, w, pos);
    if word.len() == 0 {
    } else if w < 2 || pos + word.len() <= w {
        lemma_upper_no_nl(word);
        lemma_count_nl_no_nl(upper(word));
    } else if w - pos <= 1 {
        lemma_split_word_count(word, w, 0);
        let r2 = split_word(word, w, 0);
        lemma_count_nl_concat(seq![NL], r2.1);
        lemma_count_nl_single(NL);
    } else {
        let take = w - pos - 1;
        let u = upper(word.take(take));
        let r2 = split_word(word.skip(take), w, 0);
        lemma_split_word_count(word.skip(take), w, 0);
        lemma_upper_no_nl(word.take(take));
        lemma_count_nl_no_nl(u);
        lemma_count_nl_concat(u, seq![NL]);
        lemma_count_nl_concat(u + seq![NL], r2.1);
        lemma_count_nl_single(NL);
        assert(r.1 == (u + seq![NL]) + r2.1);
    }
}

proof fn lemma_split_word_upper(word: Seq<u8>, w: int, pos: int)
    ensures
        no_lowercase(split_word(word, w, pos).1),
    decreases word.len(), (if w - pos >= 2 { 0int } else { 1int }),
{
    let r = split_word(word, w, pos);
    if word.len() == 0 {
    } else if w < 2 || pos + word.len() <= w {
    } else if w - pos <= 1 {
        lemma_split_word_upper(word, w, 0);
        let r2 = split_word(word, w, 0);
        assert forall|j: int| 0 <= j < r.1.len() implies !(97 <= #[trigger] r.1[j] <= 122) by {
            if j >= 1 {
                assert(r.1[j] == r2.1[j - 1]);
            }
        }
    } else {
        let take = w - pos - 1;
        let u = upper(word.take(take));
        let r2 = split_word(word.skip(take), w, 0);
        lemma_split_word_upper(word.skip(take), w, 0);
        assert(r.1 == (u + seq![NL]) + r2.1);
        assert forall|j: int| 0 <= j < r.1.len() implies !(97 <= #[trigger] r.1[j] <= 122) by {
            if j < u.len() {
                assert(r.1[j] == u[j]);
            } else if j == u.len() {
                assert(r.1[j] == NL);
            } else {
                assert(r.1[j] == r2.1[j - u.len() - 1]);
            }
        }
    }
}

proof fn lemma_word_chars(text: Seq<u8>, i: int)
    requires
        0 <= i,
    ensures
        forall|j: int| i <= j < i + word_len_at(text, i) ==> text[j] != SP && text[j] != NL,
    decreases text.len() - i,
{
    if !(i >= text.len() || text[i] == SP || text[i] == NL) {
        lemma_word_chars(text, i + 1);
    }
}

proof fn lemma_fmt_from_fits(text: Seq<u8>, w: int, i: int, pos: int)
    requires
        2 <= w,
        0 <= i,
        0 <= pos <= w,
    ensures
        fits_width(fmt_from(text, w, i, pos).1, pos, w),
    decreases text.len() - i,
{
    let r = fmt_from(text, w, i, pos);
    if i >= text.len() {
    } else if text[i] == NL {
        lemma_fmt_from_fits(text, w, i + 1, 0);
        let r2 = fmt_from(text, w, i + 1, 0);
        assert((seq![NL] + r2.1).skip(1) =~= r2.1);
    } else if text[i] == SP {
        if pos < w {
            lemma_fmt_from_fits(text, w, i + 1, pos + 1);
            let r2 = fmt_from(text, w, i + 1, pos + 1);
            assert((seq![SP] + r2.1).skip(1) =~= r2.1);
        } else {
            lemma_fmt_from_fits(text, w, i + 1, pos);
        }
    } else {
        let wl = word_len_at(text, i);
        lemma_word_chars(text, i);
        lemma_word_len_at_bound(text, i);
        let word = text.subrange(i, i + wl);
        assert forall|j: int| 0 <= j < word.len() implies word[j] != NL by {
            assert(word[j] == text[i + j]);
        }
        let s = split_word(word, w, pos);
        lemma_split_word_fits(word, w, pos);
        lemma_fmt_from_fits(text, w, i + wl, s.2);
        lemma_fits_concat(s.1, fmt_from(text, w, i + wl, s.2).1, pos, w);
    }
}

proof fn lemma_fmt_from_count(text: Seq<u8>, w: int, i: int, pos: int)
    requires
        0 <= i,
    ensures
        fmt_from(text, w, i, pos).0 == count_nl(fmt_from(text, w, i, pos).1),
    decreases text.len() - i,
{
    let r = fmt_from(text, w, i, pos);
    if i >= text.len() {
    } else if text[i] == NL {
        lemma_fmt_from_count(text, w, i + 1, 0);
        lemma_count_nl_concat(seq![NL], fmt_from(text, w, i + 1, 0).1);
        lemma_count_nl_single(NL);
    } else if text[i] == SP {
        lemma_fmt_from_count(text, w, i + 1, pos + 1);
        lemma_fmt_from_count(text, w, i + 1, pos);
        lemma_count_nl_concat(seq![SP], fmt_from(text, w, i + 1, pos + 1).1);
        lemma_count_nl_single(SP);
    } else {
        let wl = word_len_at(text, i);
        lemma_word_chars(text, i);
        lemma_word_len_at_bound(text, i);
        let word = text.subrange(i, i + wl);
        assert forall|j: int| 0 <= j < word.len() implies word[j] != NL by {
            assert(word[j] == text[i + j]);
        }
        let s = split_word(word, w, pos);
        lemma_split_word_count(word, w, pos);
        lemma_fmt_from_count(text, w, i + wl, s.2);
        lemma_count_nl_concat(s.1, fmt_from(text, w, i + wl, s.2).1);
    }
}

proof fn lemma_fmt_from_upper(text: Seq<u8>, w: int, i: int, pos: int)
    requires
        0 <= i,
    ensures
        no_lowercase(fmt_from(text, w, i, pos).1),
    decreases text.len() - i,
{
    let r = fmt_from(text, w, i, pos);
    if i >= text.len() {
    } else if text[i] == NL || text[i] == SP {
        lemma_fmt_from_upper(text, w, i + 1, 0);
        lemma_fmt_from_upper(text, w, i + 1, pos + 1);
        lemma_fmt_from_upper(text, w, i + 1, pos);
        assert forall|j: int| 0 <= j < r.1.len() implies !(97 <= #[trigger] r.1[j] <= 122) by {
            if text[i] == NL {
                let r2 = fmt_from(text, w, i + 1, 0);
                if j >= 1 {
                    assert(r.1[j] == r2.1[j - 1]);
                }
            } else if pos < w {
                let r2 = fmt_from(text, w, i + 1, pos + 1);
                if j >= 1 {
                    assert(r.1[j] == r2.1[j - 1]);
                }
            }
        }
    } else {
        let wl = word_len_at(text, i);
        lemma_word_len_at_bound(text, i);
        let word = text.subrange(i, i + wl);
        let s = split_word(word, w, pos);
        let r2 = fmt_from(text, w, i + wl, s.2);
        lemma_split_word_upper(word, w, pos);
        lemma_fmt_from_upper(text, w, i + wl, s.2);
        assert forall|j: int| 0 <= j < r.1.len() implies !(97 <= #[trigger] r.1[j] <= 122) by {
            if j < s.1.len() {
                assert(r.1[j] == s.1[j]);
            } else {
                assert(r.1[j] == r2.1[j - s.1.len()]);
            }
        }
    }
}

proof fn lemma_fits_prefix(s: Seq<u8>, pos: int, w: int, m: int)
    requires
        fits_width(s, pos, w),
        0 <= w,
        pos <= w,
        0 <= m <= s.len(),
    ensures
        fits_width(s.take(m), pos, w),
    decreases s.len(),
{
    if m == 0 {
        assert(s.take(0) =~= Seq::<u8>::empty());
    } else {
        assert(s.take(m).skip(1) =~= s.skip(1).take(m - 1));
        if s[0] == NL {
            lemma_fits_prefix(s.skip(1), 0, w, m - 1);
        } else {
            lemma_fits_prefix(s.skip(1), pos + 1, w, m - 1);
        }
    }
}

proof fn lemma_trim_props(s: Seq<u8>, lc: int, w: int)
    requires
        0 <= w,
    ensures
        ({
            let t = trim_trailing(s, lc);
            &&& (t.1.len() == 0 || !is_trail_ws(t.1.last()))
            &&& (lc == count_nl(s) && lc >= 0 ==> t.0 == count_nl(t.1))
            &&& (fits_width(s, 0, w) ==> fits_width(t.1, 0, w))
            &&& (no_lowercase(s) ==> no_lowercase(t.1))
        }),
    decreases s.len(),
{
    if s.len() > 0 && is_trail_ws(s.last()) {
        let lc2 = if s.last() == NL && lc > 0 {
            lc - 1
        } else {
            lc
        };
        lemma_count_nl_bounds(s.drop_last());
        assert(s.drop_last() =~= s.take(s.len() - 1));
        if fits_width(s, 0, w) {
            lemma_fits_prefix(s, 0, w, s.len() - 1);
        }
        lemma_trim_props(s.drop_last(), lc2, w);
    }
}

/// Index of the first line break in `s` (the length of `s` when none occurs).
pub open spec fn first_nl(s: Seq<u8>) -> nat
    decreases s.len(),
{
    if s.len() == 0 {
        0
    } else if s[0] == NL {
        0
    } else {
        1 + first_nl(s.skip(1))
    }
}

/// The newline-delimited segments of `s`: what stands between consecutive
/// line breaks, always at least one segment and possibly empty ones.
pub open spec fn lines_of(s: Seq<u8>) -> Seq<Seq<u8>>
    decreases s.len(),
{
    let k = first_nl(s);
    if k >= s.len() {
        seq![s]
    } else {
        seq![s.take(k as int)] + lines_of(s.skip(k as int + 1))
    }
}

proof fn lemma_first_nl(s: Seq<u8>)
    ensures
        first_nl(s) <= s.len(),
        forall|j: int| 0 <= j < first_nl(s) ==> s[j] != NL,
        first_nl(s) < s.len() ==> s[first_nl(s) as int] == NL,
    decreases s.len(),
{
    if s.len() > 0 && s[0] != NL {
        lemma_first_nl(s.skip(1));
        assert forall|j: int| 0 <= j < first_nl(s) implies s[j] != NL by {
            if j >= 1 {
                assert(s.skip(1)[j - 1] != NL);
            }
        }
    }
}

/// There is always at least one newline-delimited segment.
pub proof fn lemma_lines_nonempty(s: Seq<u8>)
    ensures
        lines_of(s).len() >= 1,
{
    lemma_count_nl_bounds(s);
    lemma_lines_count(s);
}

/// Characterizes the position of the first line break.
pub proof fn lemma_first_nl_is(s: Seq<u8>, k: int)
    requires
        0 <= k <= s.len(),
        forall|j: int| 0 <= j < k ==> s[j] != NL,
        k == s.len() || s[k] == NL,
    ensures
        first_nl(s) == k,
    decreases k,
{
    if k > 0 {
        assert(s[0] != NL);
        let s1 = s.skip(1);
        assert forall|j: int| 0 <= j < k - 1 implies s1[j] != NL by {
            assert(s1[j] == s[j + 1]);
        }
        if k - 1 < s1.len() {
            assert(s1[k - 1] == s[k]);
        }
        lemma_first_nl_is(s1, k - 1);
    }
}

/// How the segment decomposition starts: the first segment runs up to the
/// first line break, the rest decompose the remainder.
pub proof fn lemma_lines_head(s: Seq<u8>, k: int)
    requires
        0 <= k,
        k == first_nl(s),
    ensures
        k <= s.len(),
        k < s.len() ==> lines_of(s) == seq![s.take(k)] + lines_of(s.skip(k + 1)),
        k >= s.len() ==> lines_of(s) == seq![s],
        lines_of(s)[0] == (if k < s.len() {
            s.take(k)
        } else {
            s
        }),
{
    lemma_first_nl(s);
}

proof fn lemma_lines_count(s: Seq<u8>)
    ensures
        lines_of(s).len() == count_nl(s) + 1,
    decreases s.len(),
{
    lemma_first_nl(s);
    let k = first_nl(s);
    if k >= s.len() {
        lemma_count_nl_no_nl(s);
    } else {
        lemma_lines_count(s.skip(k as int + 1));
        assert(s =~= s.take(k as int) + seq![NL] + s.skip(k as int + 1));
        lemma_count_nl_concat(s.take(k as int) + seq![NL], s.skip(k as int + 1));
        lemma_count_nl_concat(s.take(k as int), seq![NL]);
        lemma_count_nl_no_nl(s.take(k as int));
        lemma_count_nl_single(NL);
    }
}

proof fn lemma_lines_fit(s: Seq<u8>, w: int)
    requires
        fits_width(s, 0, w),
        0 <= w,
    ensures
        forall|idx: int|
            0 <= idx < lines_of(s).len() ==> #[trigger] lines_of(s)[idx].len() <= w,
    decreases s.len(),
{
    lemma_first_nl(s);
    let k = first_nl(s);
    lemma_fits_run(s, 0, w, k as int);
    if k < s.len() {
        assert(s.skip(k as int).skip(1) =~= s.skip(k as int + 1));
        assert(s.skip(k as int)[0] == NL);
        lemma_lines_fit(s.skip(k as int + 1), w);
        assert forall|idx: int|
            0 <= idx < lines_of(s).len() implies #[trigger] lines_of(s)[idx].len() <= w by {
            if idx == 0 {
                assert(lines_of(s)[0] == s.take(k as int));
            } else {
                assert(lines_of(s)[idx] == lines_of(s.skip(k as int + 1))[idx - 1]);
            }
        }
    }
}

proof fn lemma_refmt(s: Seq<u8>, w: int, i: int, pos: int)
    requires
        2 <= w,
        0 <= i <= s.len(),
        0 <= pos <= w,
        fits_width(s.skip(i), pos, w),
        no_lowercase(s),
    ensures
        fmt_from(s, w, i, pos) == (count_nl(s.skip(i)), s.skip(i)),
    decreases s.len() - i,
{
    let tail = s.skip(i);
    if i >= s.len() {
        assert(tail =~= Seq::<u8>::empty());
    } else if s[i] == NL {
        assert(tail[0] == NL);
        assert(tail.skip(1) =~= s.skip(i + 1));
        lemma_refmt(s, w, i + 1, 0);
        assert(tail =~= seq![NL] + s.skip(i + 1));
        lemma_count_nl_concat(seq![NL], s.skip(i + 1));
        lemma_count_nl_single(NL);
    } else if s[i] == SP {
        assert(tail[0] == SP);
        assert(tail.skip(1) =~= s.skip(i + 1));
        lemma_refmt(s, w, i + 1, pos + 1);
        assert(tail =~= seq![SP] + s.skip(i + 1));
        lemma_count_nl_concat(seq![SP], s.skip(i + 1));
        lemma_count_nl_single(SP);
    } else {
        let wl = word_len_at(s, i);
        lemma_word_chars(s, i);
        lemma_word_len_at_bound(s, i);
        assert forall|j: int| 0 <= j < wl implies tail[j] != NL by {
            assert(tail[j] == s[i + j]);
        }
        lemma_fits_run(tail, pos, w, wl as int);
        let word = s.subrange(i, i + wl);
        assert(upper(word) =~= word);
        assert(tail.skip(wl as int) =~= s.skip(i + wl));
        lemma_refmt(s, w, i + wl, pos + wl);
        assert(tail =~= word + s.skip(i + wl));
        lemma_count_nl_concat(word, s.skip(i + wl));
        lemma_count_nl_no_nl(word);
    }
}

/// Every line of the formatted output is at most `w` bytes long.
pub proof fn lemma_formatted_lines_fit(text: Seq<u8>, w: int)
    requires
        2 <= w,
    ensures
        forall|idx: int|
            0 <= idx < lines_of(format_spec(text, w).1).len()
                ==> #[trigger] lines_of(format_spec(text, w).1)[idx].len() <= w,
{
    let r = fmt_from(text, w, 0, 0);
    lemma_fmt_from_fits(text, w, 0, 0);
    lemma_trim_props(r.1, r.0, w);
    lemma_lines_fit(format_spec(text, w).1, w);
}

/// The formatted output never ends in a space or a line break: trailing
/// blank lines and trailing space runs are trimmed away.
pub proof fn lemma_no_trailing_whitespace(text: Seq<u8>, w: int)
    ensures
        ({
            let out = format_spec(text, w).1;
            out.len() == 0 || !is_trail_ws(out.last())
        }),
{
    let r = fmt_from(text, w, 0, 0);
    lemma_trim_props(r.1, r.0, 2);
}

/// The reported line count equals the number of newline-delimited segments
/// of the formatted output.
pub proof fn lemma_line_count_matches(text: Seq<u8>, w: int)
    ensures
        format_spec(text, w).0 == lines_of(format_spec(text, w).1).len(),
        format_spec(text, w).0 >= 1,
{
    let r = fmt_from(text, w, 0, 0);
    lemma_fmt_from_count(text, w, 0, 0);
    lemma_trim_props(r.1, r.0, 2);
    lemma_count_nl_bounds(r.1);
    lemma_lines_count(format_spec(text, w).1);
}

/// Formatting an already formatted text once more, at the same width,
/// reproduces both the text and the line count unchanged.
pub proof fn lemma_format_idempotent(text: Seq<u8>, w: int)
    requires
        2 <= w,
    ensures
        format_spec(format_spec(text, w).1, w) == format_spec(text, w),
{
    let r = fmt_from(text, w, 0, 0);
    let out = format_spec(text, w).1;
    lemma_fmt_from_fits(text, w, 0, 0);
    lemma_fmt_from_upper(text, w, 0, 0);
    lemma_fmt_from_count(text, w, 0, 0);
    lemma_count_nl_bounds(r.1);
    lemma_trim_props(r.1, r.0, w);
    assert(out.skip(0) =~= out);
    lemma_refmt(out, w, 0, 0);
}

} // verus!

