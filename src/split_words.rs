use vstd::prelude::*;

verus! {

pub open spec fn is_ws(b: u8) -> bool {
    b == 10u8 || b == 13u8 || b == 32u8
}

pub open spec fn is_line_break(b: u8) -> bool {
    b == 10u8 || b == 13u8
}

/// Number of bytes before the first whitespace byte (or the end).
pub open spec fn word_len(s: Seq<u8>) -> nat
    decreases s.len(),
{
    if s.len() == 0 || is_ws(s[0]) {
        0
    } else {
        1 + word_len(s.drop_first())
    }
}

/// Wraps `s` for a line of `width` dots with characters `size` dots wide,
/// the current line already holding `off` dots: the bytes to print and the
/// offset after them.
///
/// A line break sets the offset to zero; a space advances it modulo the
/// width; a word advances it by its width modulo the width, and a word that
/// would pass the end of the line gets a line feed in front of it and starts
/// the new line. The offset is always reduced modulo the width.
pub open spec fn wrap(s: Seq<u8>, off: int, width: int, size: int) -> (Seq<u8>, int)
    decreases s.len(),
{
    if width <= 0 {
        (s, off)
    } else if s.len() == 0 {
        (s, off % width)
    } else if is_line_break(s[0]) {
        let r = wrap(s.drop_first(), 0, width, size);
        (seq![s[0]] + r.0, r.1)
    } else if s[0] == 32u8 {
        let r = wrap(s.drop_first(), (off + size) % width, width, size);
        (seq![s[0]] + r.0, r.1)
    } else {
        let k = if word_len(s) <= s.len() {
            word_len(s) as int
        } else {
            s.len() as int
        };
        let w = k * size;
        if w + off > width {
            let r = wrap(s.skip(k), w % width, width, size);
            (seq![10u8] + s.take(k) + r.0, r.1)
        } else {
            let r = wrap(s.skip(k), (off + w) % width, width, size);
            (s.take(k) + r.0, r.1)
        }
    }
}

/// The offset after wrapping lies in `[0, width)`.
pub proof fn lemma_wrap_offset_bound(s: Seq<u8>, off: int, width: int, size: int)
    requires
        width > 0,
        size >= 0,
        off >= 0,
    ensures
        0 <= wrap(s, off, width, size).1 < width,
    decreases s.len(),
{
    if s.len() == 0 {
    } else if is_line_break(s[0]) {
        lemma_wrap_offset_bound(s.drop_first(), 0, width, size);
    } else if s[0] == 32u8 {
        lemma_wrap_offset_bound(s.drop_first(), (off + size) % width, width, size);
    } else {
        let k = if word_len(s) <= s.len() {
            word_len(s) as int
        } else {
            s.len() as int
        };
        let w = k * size;
        vstd::arithmetic::mul::lemma_mul_nonnegative(k, size);
        if w + off > width {
            lemma_wrap_offset_bound(s.skip(k), w % width, width, size);
        } else {
            lemma_wrap_offset_bound(s.skip(k), (off + w) % width, width, size);
        }
    }
}

proof fn lemma_word_len(s: Seq<u8>, p: int)
    requires
        0 <= p <= s.len(),
        p == s.len() || is_ws(s[p]),
        forall|i: int| 0 <= i < p ==> !is_ws(#[trigger] s[i]),
    ensures
        word_len(s) == p,
    decreases p,
{
    if p > 0 {
        lemma_word_len(s.drop_first(), p - 1);
    }
}

proof fn lemma_word_len_bound(s: Seq<u8>)
    ensures
        word_len(s) <= s.len(),
        forall|i: int| 0 <= i < word_len(s) ==> !is_ws(#[trigger] s[i]),
        word_len(s) < s.len() ==> is_ws(s[word_len(s) as int]),
    decreases s.len(),
{
    if s.len() > 0 && !is_ws(s[0]) {
        let t = s.drop_first();
        lemma_word_len_bound(t);
        assert forall|i: int| 0 <= i < word_len(s) implies !is_ws(#[trigger] s[i]) by {
            if i > 0 {
                assert(s[i] == t[i - 1]);
            }
        }
    }
}

/// Wraps `content` in place for a line of `printer_width` dots, inserting a
/// line feed before each word that would run past the end of the line, and
/// returns the offset in dots after the last byte.
#[verifier::rlimit(100)]
pub fn split_words(
    content: &mut Vec<u8>,
    cur_offset: usize,
    printer_width: usize,
    char_size: usize,
) -> (r: usize)
    requires
        printer_width > 0,
        old(content)@.len() * char_size + cur_offset + printer_width + char_size <= usize::MAX,
    ensures
        final(content)@ == wrap(old(content)@, cur_offset as int, printer_width as int, char_size as int).0,
        r as int == wrap(old(content)@, cur_offset as int, printer_width as int, char_size as int).1,
        r < printer_width,
{
    let ghost orig = content@;
    let ghost pw = printer_width as int;
    let ghost cs = char_size as int;
    let ghost mut j: int = 0;
    let mut new_offset: usize = cur_offset;
    let mut content_idx: usize = 0;
    proof {
        vstd::arithmetic::mul::lemma_mul_inequality(0, orig.len() as int, cs);
        assert(orig.skip(0) == orig);
        assert(content@.take(0) + wrap(orig, cur_offset as int, pw, cs).0 == wrap(orig, cur_offset as int, pw, cs).0);
    }
    while content_idx < content.len()
        invariant
            printer_width > 0,
            0 <= j <= orig.len(),
            pw == printer_width,
            cs == char_size,
            content_idx <= content@.len(),
            content@.skip(content_idx as int) == orig.skip(j),
            content_idx as int + (orig.len() - j) == content@.len(),
            new_offset <= cur_offset || new_offset <= printer_width,
            orig.len() * char_size + cur_offset + printer_width + char_size <= usize::MAX,
            content@.take(content_idx as int) + wrap(orig.skip(j), new_offset as int, pw, cs).0
                == wrap(orig, cur_offset as int, pw, cs).0,
            wrap(orig.skip(j), new_offset as int, pw, cs).1 == wrap(orig, cur_offset as int, pw, cs).1,
        decreases content@.len() - content_idx,
    {
        let ghost s = orig.skip(j);
        let ghost before = content@;
        assert(s[0] == content@[content_idx as int]);
        assert(s.drop_first() == orig.skip(j + 1));
        let c = content[content_idx];
        if c == 10u8 || c == 13u8 {
            proof {
                assert(content@.take(content_idx + 1) == content@.take(content_idx as int) + seq![c]);
                j = j + 1;
            }
            new_offset = 0;
            content_idx += 1;
        } else if c == 32u8 {
            proof {
                assert(content@.take(content_idx + 1) == content@.take(content_idx as int) + seq![c]);
                j = j + 1;
            }
            new_offset = (new_offset + char_size) % printer_width;
            content_idx += 1;
        } else {
            let mut next_ws: usize = content_idx;
            while next_ws < content.len() && !(content[next_ws] == 10u8 || content[next_ws] == 13u8
                || content[next_ws] == 32u8)
                invariant
                    content_idx <= next_ws <= content@.len(),
                    content@ == before,
                    forall|i: int| content_idx <= i < next_ws ==> !is_ws(#[trigger] content@[i]),
                decreases content@.len() - next_ws,
            {
                next_ws += 1;
            }
            let ghost k = (next_ws - content_idx) as int;
            proof {
                assert forall|i: int| 0 <= i < k implies !is_ws(#[trigger] s[i]) by {
                    assert(s[i] == content@[content_idx + i]);
                }
                if next_ws < content.len() {
                    assert(s[k] == content@[next_ws as int]);
                }
                lemma_word_len(s, k);
                lemma_word_len_bound(s);
                assert(k <= orig.len() - j);
                vstd::arithmetic::mul::lemma_mul_inequality(k, orig.len() as int, cs);
            }
            let next_word_len: usize = (next_ws - content_idx) * char_size;
            if next_word_len + new_offset > printer_width {
                content.insert(content_idx, 10u8);
                proof {
                    let nc = content@;
                    assert(nc.take(content_idx as int) == before.take(content_idx as int));
                    let new_idx = next_ws + 1;
                    assert(nc.take(new_idx as int) == before.take(content_idx as int) + (seq![10u8]
                        + s.take(k)));
                    assert(nc.skip(new_idx as int) == orig.skip(j + k));
                    assert(s.skip(k) == orig.skip(j + k));
                    assert(before.take(content_idx as int) + (seq![10u8] + s.take(k)) + wrap(
                        orig.skip(j + k),
                        next_word_len as int % pw,
                        pw,
                        cs,
                    ).0 == before.take(content_idx as int) + wrap(s, new_offset as int, pw, cs).0);
                    j = j + k;
                }
                new_offset = next_word_len % printer_width;
                let grown = content.len();
                assert(next_ws < grown);
                content_idx = next_ws + 1;
            } else {
                proof {
                    assert(content@.take(next_ws as int) == content@.take(content_idx as int)
                        + s.take(k));
                    assert(s.skip(k) == orig.skip(j + k));
                    assert(content@.skip(next_ws as int) == orig.skip(j + k));
                    assert(content@.take(content_idx as int) + s.take(k) + wrap(
                        orig.skip(j + k),
                        (new_offset + next_word_len) % printer_width as int,
                        pw,
                        cs,
                    ).0 == content@.take(content_idx as int) + wrap(s, new_offset as int, pw, cs).0);
                    j = j + k;
                }
                new_offset = (new_offset + next_word_len) % printer_width;
                content_idx = next_ws;
            }
        }
    }
    proof {
        lemma_wrap_offset_bound(orig, cur_offset as int, pw, cs);
        assert(orig.skip(j).len() == 0);
        assert(content@.take(content_idx as int) == content@);
    }
    new_offset % printer_width
}

/// `o` is `s` with line feeds inserted, each at the start of a word: right
/// before a byte that is not white space and that follows white space (or
/// starts `s`, when `at_start`). So no word of `s` is split in `o`.
pub open spec fn breaks_inserted(o: Seq<u8>, s: Seq<u8>, at_start: bool) -> bool
    decreases o.len(),
{
    if s.len() == 0 {
        o.len() == 0
    } else if o.len() == 0 {
        false
    } else if o[0] == s[0] && breaks_inserted(o.drop_first(), s.drop_first(), is_ws(s[0])) {
        true
    } else {
        at_start && o.len() > 1 && o[0] == 10u8 && !is_ws(s[0]) && o[1] == s[0] && breaks_inserted(
            o.skip(2),
            s.drop_first(),
            false,
        )
    }
}

proof fn lemma_breaks_inserted_refl(s: Seq<u8>, f: bool)
    ensures
        breaks_inserted(s, s, f),
    decreases s.len(),
{
    if s.len() > 0 {
        lemma_breaks_inserted_refl(s.drop_first(), is_ws(s[0]));
    }
}

/// The flag after reading `x` from flag `f`: whether `x` ends in white space
/// (`f` when `x` is empty).
pub open spec fn end_flag(x: Seq<u8>, f: bool) -> bool {
    if x.len() == 0 {
        f
    } else {
        is_ws(x.last())
    }
}

proof fn lemma_breaks_inserted_append(a: Seq<u8>, x: Seq<u8>, b: Seq<u8>, y: Seq<u8>, f: bool)
    requires
        breaks_inserted(a, x, f),
        breaks_inserted(b, y, end_flag(x, f)),
    ensures
        breaks_inserted(a + b, x + y, f),
    decreases a.len(),
{
    if x.len() == 0 {
        assert(a + b == b);
        assert(x + y == y);
    } else if a[0] == x[0] && breaks_inserted(a.drop_first(), x.drop_first(), is_ws(x[0])) {
        assert(end_flag(x.drop_first(), is_ws(x[0])) == end_flag(x, f));
        lemma_breaks_inserted_append(a.drop_first(), x.drop_first(), b, y, is_ws(x[0]));
        assert((a + b).drop_first() == a.drop_first() + b);
        assert((x + y).drop_first() == x.drop_first() + y);
    } else {
        assert(end_flag(x.drop_first(), false) == end_flag(x, f)) by {
            if x.len() == 1 {
                assert(!is_ws(x[0]));
            }
        }
        lemma_breaks_inserted_append(a.skip(2), x.drop_first(), b, y, false);
        assert((a + b).skip(2) == a.skip(2) + b);
        assert((x + y).drop_first() == x.drop_first() + y);
    }
}

/// The splitter only inserts line feeds, each at the start of a word of the
/// input (taking the input to start at a word boundary): it never breaks a
/// word, and a run of non-white-space bytes in its output is a word of its
/// input.
pub proof fn lemma_wrap_inserts_breaks_before_words(s: Seq<u8>, off: int, width: int, size: int)
    ensures
        breaks_inserted(wrap(s, off, width, size).0, s, true),
{
    lemma_wrap_breaks(s, off, width, size, true);
}

proof fn lemma_wrap_breaks(s: Seq<u8>, off: int, width: int, size: int, f: bool)
    requires
        f || s.len() == 0 || is_ws(s[0]),
    ensures
        breaks_inserted(wrap(s, off, width, size).0, s, f),
    decreases s.len(),
{
    if s.len() == 0 || width <= 0 {
        lemma_breaks_inserted_refl(s, f);
    } else if is_line_break(s[0]) || s[0] == 32u8 {
        let next = if is_line_break(s[0]) {
            0
        } else {
            (off + size) % width
        };
        lemma_wrap_breaks(s.drop_first(), next, width, size, true);
        let o = wrap(s, off, width, size).0;
        assert(o.drop_first() == wrap(s.drop_first(), next, width, size).0);
    } else {
        lemma_word_len_bound(s);
        let k = word_len(s) as int;
        let w = k * size;
        let word = s.take(k);
        assert(end_flag(word, f) == false) by {
            assert(!is_ws(word[k - 1]));
        }
        if w + off > width {
            let r = wrap(s.skip(k), w % width, width, size).0;
            let piece = s.take(k);
            lemma_wrap_breaks(s.skip(k), w % width, width, size, false);
            lemma_breaks_inserted_refl(piece.drop_first(), false);
            assert(end_flag(piece.drop_first(), false) == false) by {
                if k > 1 {
                    assert(piece.drop_first().last() == s[k - 1]);
                }
            }
            lemma_breaks_inserted_append(piece.drop_first(), piece.drop_first(), r, s.skip(k), false);
            let o = seq![10u8] + piece + r;
            assert(o == wrap(s, off, width, size).0);
            assert(o.skip(2) == piece.drop_first() + r);
            assert(s.drop_first() == piece.drop_first() + s.skip(k));
            assert(o[1] == s[0]);
            assert(o[0] != s[0]);
        } else {
            let r = wrap(s.skip(k), (off + w) % width, width, size).0;
            lemma_wrap_breaks(s.skip(k), (off + w) % width, width, size, false);
            lemma_breaks_inserted_refl(word, f);
            lemma_breaks_inserted_append(word, word, r, s.skip(k), f);
            assert(word + s.skip(k) == s);
        }
    }
}

/// Whether `o` holds a line break.
pub open spec fn has_break(o: Seq<u8>) -> bool
    decreases o.len(),
{
    if o.len() == 0 {
        false
    } else {
        is_line_break(o.last()) || has_break(o.drop_last())
    }
}

/// Number of bytes after the last line break of `o` (all of them if there is none).
pub open spec fn tail_len(o: Seq<u8>) -> int
    decreases o.len(),
{
    if o.len() == 0 {
        0
    } else if is_line_break(o.last()) {
        0
    } else {
        1 + tail_len(o.drop_last())
    }
}

proof fn lemma_tail_concat(a: Seq<u8>, b: Seq<u8>)
    ensures
        has_break(a + b) == (has_break(a) || has_break(b)),
        tail_len(a + b) == if has_break(b) {
            tail_len(b)
        } else {
            tail_len(a) + b.len()
        },
    decreases b.len(),
{
    if b.len() == 0 {
        assert(a + b == a);
    } else {
        lemma_tail_concat(a, b.drop_last());
        assert((a + b).drop_last() == a + b.drop_last());
        assert((a + b).last() == b.last());
    }
}

proof fn lemma_no_break_tail(t: Seq<u8>)
    requires
        !has_break(t),
    ensures
        tail_len(t) == t.len(),
    decreases t.len(),
{
    if t.len() > 0 {
        lemma_no_break_tail(t.drop_last());
    }
}

proof fn lemma_no_ws_no_break(t: Seq<u8>)
    requires
        forall|i: int| 0 <= i < t.len() ==> !is_ws(#[trigger] t[i]),
    ensures
        !has_break(t),
        tail_len(t) == t.len(),
    decreases t.len(),
{
    if t.len() > 0 {
        lemma_no_ws_no_break(t.drop_last());
        assert(!is_ws(t[t.len() - 1]));
    }
}

/// The offset after the splitter is the number of bytes printed since the
/// last line break times the character size, modulo the width (counted from
/// the starting offset when no line break was printed).
pub proof fn lemma_wrap_offset_since_break(s: Seq<u8>, off: int, width: int, size: int)
    requires
        width > 0,
        size >= 0,
        off >= 0,
    ensures
        wrap(s, off, width, size).1 % width == ((if has_break(wrap(s, off, width, size).0) {
            0
        } else {
            off
        }) + tail_len(wrap(s, off, width, size).0) * size) % width,
    decreases s.len(),
{
    let o = wrap(s, off, width, size).0;
    let r = wrap(s, off, width, size).1;
    if s.len() == 0 {
        assert(o.len() == 0);
        vstd::arithmetic::div_mod::lemma_mod_twice(off, width);
        assert(tail_len(o) == 0);
    } else {
        let (pre, rest, next) = if is_line_break(s[0]) {
            (seq![s[0]], s.drop_first(), 0int)
        } else if s[0] == 32u8 {
            (seq![s[0]], s.drop_first(), (off + size) % width)
        } else {
            lemma_word_len_bound(s);
            let k = word_len(s) as int;
            let w = k * size;
            if w + off > width {
                (seq![10u8] + s.take(k), s.skip(k), w % width)
            } else {
                (s.take(k), s.skip(k), (off + w) % width)
            }
        };
        let ro = wrap(rest, next, width, size).0;
        assert(o == pre + ro);
        assert(r == wrap(rest, next, width, size).1);
        if !is_line_break(s[0]) && s[0] != 32u8 {
            vstd::arithmetic::mul::lemma_mul_nonnegative(word_len(s) as int, size);
        }
        lemma_wrap_offset_since_break(rest, next, width, size);
        lemma_tail_concat(pre, ro);
        if has_break(ro) {
            assert(has_break(o));
            assert(tail_len(o) == tail_len(ro));
        } else {
            lemma_no_break_tail(ro);
            let t = tail_len(ro);
            assert(r % width == (next + t * size) % width);
            let base = if has_break(pre) {
                0
            } else {
                off
            };
            if is_line_break(s[0]) || s[0] == 32u8 {
                assert(pre.drop_last() =~= Seq::<u8>::empty());
                assert(pre.last() == s[0]);
                assert(!has_break(Seq::<u8>::empty()));
                assert(tail_len(Seq::<u8>::empty()) == 0);
                if s[0] == 32u8 {
                    assert(tail_len(pre) == 1);
                    assert(!has_break(pre));
                    vstd::arithmetic::div_mod::lemma_mod_twice(off + size, width);
                    assert(next % width == (base + tail_len(pre) * size) % width);
                } else {
                    assert(has_break(pre));
                    assert(tail_len(pre) == 0);
                }
            } else {
                let k = word_len(s) as int;
                assert forall|i: int| 0 <= i < s.take(k).len() implies !is_ws(#[trigger] s.take(k)[i]) by {
                    assert(s.take(k)[i] == s[i]);
                }
                lemma_no_ws_no_break(s.take(k));
                if k * size + off > width {
                    let one = seq![10u8];
                    lemma_tail_concat(one, s.take(k));
                    assert(one.drop_last() =~= Seq::<u8>::empty());
                    assert(!has_break(Seq::<u8>::empty()));
                    assert(has_break(one));
                    assert(has_break(pre));
                    assert(tail_len(pre) == k);
                    vstd::arithmetic::div_mod::lemma_mod_twice(k * size, width);
                    assert(next % width == (base + tail_len(pre) * size) % width);
                } else {
                    assert(tail_len(pre) == k);
                    vstd::arithmetic::div_mod::lemma_mod_twice(off + k * size, width);
                    assert(next % width == (base + tail_len(pre) * size) % width);
                }
            }
            vstd::arithmetic::div_mod::lemma_add_mod_noop(next, t * size, width);
            vstd::arithmetic::div_mod::lemma_add_mod_noop(base + tail_len(pre) * size, t * size, width);
            vstd::arithmetic::mul::lemma_mul_is_distributive_add_other_way(size, tail_len(pre), t);
            assert(base + tail_len(pre) * size + t * size == base + (tail_len(pre) + t) * size);
            assert(tail_len(o) == tail_len(pre) + t);
            assert(has_break(o) == has_break(pre));
        }
    }
}

} // verus!
