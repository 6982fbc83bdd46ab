use vstd::prelude::*;
use vstd::string::*;

use crate::str_views;

verus! {

// ---------------------------------------------------------------------------
// Words
// ---------------------------------------------------------------------------

/// The characters that split a text into words (ASCII whitespace).
pub open spec fn is_wrap_space(c: char) -> bool {
    c == ' ' || c == '\t' || c == '\n' || c == '\x0C' || c == '\r'
}

/// Splits `s` into whitespace-free words, `cur` being the partial word read
/// so far.
pub open spec fn words_rec(s: Seq<char>, cur: Seq<char>) -> Seq<Seq<char>>
    decreases s.len(),
{
    if s.len() == 0 {
        if cur.len() == 0 {
            Seq::empty()
        } else {
            seq![cur]
        }
    } else if is_wrap_space(s[0]) {
        (if cur.len() == 0 {
            Seq::<Seq<char>>::empty()
        } else {
            seq![cur]
        }) + words_rec(s.skip(1), Seq::empty())
    } else {
        words_rec(s.skip(1), cur.push(s[0]))
    }
}

/// The whitespace-split word sequence of a text.
pub open spec fn words(s: Seq<char>) -> Seq<Seq<char>> {
    words_rec(s, Seq::empty())
}

/// Splits a text into its whitespace-separated words.
pub fn split_words(s: &str) -> (ws: Vec<String>)
    ensures
        str_views(ws@) == words(s@),
{
    let n = s.unicode_len();
    let mut ws: Vec<String> = Vec::new();
    let mut i: usize = 0;
    let mut start: usize = 0;
    let mut in_word = false;
    proof {
        assert(s@.skip(0) =~= s@);
        assert(str_views(ws@) =~= Seq::<Seq<char>>::empty());
        assert(str_views(ws@) + words_rec(s@, Seq::<char>::empty()) =~= words_rec(
            s@,
            Seq::<char>::empty(),
        ));
    }
    while i < n
        invariant
            0 <= i <= n,
            n == s@.len(),
            in_word ==> start < i,
            in_word ==> words(s@) == str_views(ws@) + words_rec(
                s@.skip(i as int),
                s@.subrange(start as int, i as int),
            ),
            !in_word ==> words(s@) == str_views(ws@) + words_rec(
                s@.skip(i as int),
                Seq::<char>::empty(),
            ),
        decreases n - i,
    {
        proof {
            assert(s@.skip(i as int)[0] == s@[i as int]);
            assert(s@.skip(i as int).skip(1) =~= s@.skip(i + 1));
        }
        let c = s.get_char(i);
        if c == ' ' || c == '\t' || c == '\n' || c == '\x0C' || c == '\r' {
            if in_word {
                let ghost cur = s@.subrange(start as int, i as int);
                let ghost old_ws = ws@;
                let word = s.substring_char(start, i);
                ws.push(word.to_owned());
                in_word = false;
                proof {
                    let r = words_rec(s@.skip(i + 1), Seq::<char>::empty());
                    assert(words_rec(s@.skip(i as int), cur) == seq![cur] + r);
                    assert(str_views(ws@) =~= str_views(old_ws).push(cur));
                    assert(str_views(old_ws) + (seq![cur] + r) =~= str_views(ws@) + r);
                }
            } else {
                proof {
                    let r = words_rec(s@.skip(i + 1), Seq::<char>::empty());
                    assert(words_rec(s@.skip(i as int), Seq::<char>::empty())
                        == Seq::<Seq<char>>::empty() + r);
                    assert(Seq::<Seq<char>>::empty() + r =~= r);
                }
            }
        } else {
            let ghost was_in_word = in_word;
            let ghost old_start = start as int;
            if !in_word {
                start = i;
                in_word = true;
            }
            proof {
                if was_in_word {
                    assert(s@.subrange(start as int, i + 1) =~= s@.subrange(
                        start as int,
                        i as int,
                    ).push(s@[i as int]));
                } else {
                    assert(s@.subrange(start as int, i + 1) =~= Seq::<char>::empty().push(
                        s@[i as int],
                    ));
                }
            }
        }
        i += 1;
    }
    if in_word {
        let ghost cur = s@.subrange(start as int, n as int);
        let ghost old_ws = ws@;
        let word = s.substring_char(start, n);
        ws.push(word.to_owned());
        proof {
            assert(s@.skip(n as int).len() == 0);
            assert(words_rec(s@.skip(n as int), cur) == seq![cur]);
            assert(str_views(ws@) =~= str_views(old_ws).push(cur));
            assert(str_views(old_ws) + seq![cur] =~= str_views(ws@));
        }
    } else {
        proof {
            assert(s@.skip(n as int).len() == 0);
            assert(words_rec(s@.skip(n as int), Seq::<char>::empty()) == Seq::<Seq<char>>::empty());
            assert(str_views(ws@) + Seq::<Seq<char>>::empty() =~= str_views(ws@));
        }
    }
    ws
}

// ---------------------------------------------------------------------------
// Greedy word wrap
// ---------------------------------------------------------------------------

/// The total character length of the words of one line.
pub open spec fn sum_lens(g: Seq<Seq<char>>) -> nat
    decreases g.len(),
{
    if g.len() == 0 {
        0
    } else {
        sum_lens(g.drop_last()) + g.last().len()
    }
}

/// Greedy grouping of words into lines: a word whose length would push the
/// running total of the open line over `cutoff` closes that line and opens a
/// new one. `cur` is the open line, `cur_len` its running word-length total.
pub open spec fn wrap_rec(ws: Seq<Seq<char>>, cutoff: nat, cur: Seq<Seq<char>>, cur_len: nat) -> Seq<
    Seq<Seq<char>>,
>
    decreases ws.len(),
{
    if ws.len() == 0 {
        seq![cur]
    } else {
        let w = ws[0];
        if cur_len + w.len() > cutoff {
            seq![cur] + wrap_rec(ws.skip(1), cutoff, seq![w], w.len())
        } else {
            wrap_rec(ws.skip(1), cutoff, cur.push(w), cur_len + w.len())
        }
    }
}

/// The greedy wrap of a word sequence: one group of words per output line.
pub open spec fn wrap_groups(ws: Seq<Seq<char>>, cutoff: nat) -> Seq<Seq<Seq<char>>> {
    wrap_rec(ws, cutoff, Seq::empty(), 0)
}

/// The words of the wrapped groups, concatenated back in order.
pub open spec fn concat_groups(gs: Seq<Seq<Seq<char>>>) -> Seq<Seq<char>>
    decreases gs.len(),
{
    if gs.len() == 0 {
        Seq::empty()
    } else {
        gs[0] + concat_groups(gs.skip(1))
    }
}

/// One line's text: its words joined by single spaces.
pub open spec fn join_words(g: Seq<Seq<char>>) -> Seq<char>
    decreases g.len(),
{
    if g.len() == 0 {
        Seq::empty()
    } else if g.len() == 1 {
        g[0]
    } else {
        join_words(g.drop_last()) + seq![' '] + g.last()
    }
}

/// The texts of all wrapped lines.
pub open spec fn join_all(gs: Seq<Seq<Seq<char>>>) -> Seq<Seq<char>> {
    gs.map_values(|g: Seq<Seq<char>>| join_words(g))
}

proof fn lemma_wrap_rec_concat(ws: Seq<Seq<char>>, cutoff: nat, cur: Seq<Seq<char>>, cur_len: nat)
    ensures
        concat_groups(wrap_rec(ws, cutoff, cur, cur_len)) == cur + ws,
    decreases ws.len(),
{
    if ws.len() == 0 {
        assert(seq![cur].skip(1) =~= Seq::<Seq<Seq<char>>>::empty());
        assert(concat_groups(Seq::<Seq<Seq<char>>>::empty()) == Seq::<Seq<char>>::empty());
        assert(concat_groups(seq![cur]) == cur + Seq::<Seq<char>>::empty());
        assert(cur + Seq::<Seq<char>>::empty() =~= cur + ws);
    } else {
        let w = ws[0];
        if cur_len + w.len() > cutoff {
            lemma_wrap_rec_concat(ws.skip(1), cutoff, seq![w], w.len());
            let rest = wrap_rec(ws.skip(1), cutoff, seq![w], w.len());
            assert((seq![cur] + rest)[0] == cur);
            assert((seq![cur] + rest).skip(1) =~= rest);
            assert(concat_groups(seq![cur] + rest) == cur + concat_groups(rest));
            assert(cur + (seq![w] + ws.skip(1)) =~= cur + ws);
        } else {
            lemma_wrap_rec_concat(ws.skip(1), cutoff, cur.push(w), cur_len + w.len());
            assert(cur.push(w) + ws.skip(1) =~= cur + ws);
        }
    }
}

/// Word-wrap coverage: the wrapped groups, concatenated in order, are exactly
/// the whitespace-split word sequence of the text. No word is lost, invented,
/// or reordered by wrapping.
pub proof fn lemma_wrap_coverage(text: Seq<char>, cutoff: nat)
    ensures
        concat_groups(wrap_groups(words(text), cutoff)) == words(text),
{
    lemma_wrap_rec_concat(words(text), cutoff, Seq::empty(), 0);
    assert(Seq::<Seq<char>>::empty() + words(text) =~= words(text));
}

proof fn lemma_wrap_rec_budget(ws: Seq<Seq<char>>, cutoff: nat, cur: Seq<Seq<char>>, cur_len: nat)
    requires
        cur_len == sum_lens(cur),
        sum_lens(cur) <= cutoff || cur.len() == 1,
    ensures
        forall|i: int|
            0 <= i < wrap_rec(ws, cutoff, cur, cur_len).len() ==> sum_lens(
                #[trigger] wrap_rec(ws, cutoff, cur, cur_len)[i],
            ) <= cutoff || wrap_rec(ws, cutoff, cur, cur_len)[i].len() == 1,
    decreases ws.len(),
{
    if ws.len() == 0 {
        assert(wrap_rec(ws, cutoff, cur, cur_len) == seq![cur]);
        assert(wrap_rec(ws, cutoff, cur, cur_len)[0] == cur);
    } else {
        let w = ws[0];
        if cur_len + w.len() > cutoff {
            assert(sum_lens(seq![w]) == w.len()) by {
                assert(seq![w].drop_last() =~= Seq::<Seq<char>>::empty());
                assert(sum_lens(Seq::<Seq<char>>::empty()) == 0);
            }
            lemma_wrap_rec_budget(ws.skip(1), cutoff, seq![w], w.len());
            let rest = wrap_rec(ws.skip(1), cutoff, seq![w], w.len());
            assert(wrap_rec(ws, cutoff, cur, cur_len) == seq![cur] + rest);
            assert(forall|i: int|
                0 <= i < (seq![cur] + rest).len() ==> sum_lens(#[trigger] (seq![cur] + rest)[i])
                    <= cutoff || (seq![cur] + rest)[i].len() == 1) by {
                assert((seq![cur] + rest)[0] == cur);
                assert(forall|i: int|
                    1 <= i < (seq![cur] + rest).len() ==> (seq![cur] + rest)[i] == rest[i - 1]);
            }
        } else {
            assert(sum_lens(cur.push(w)) == sum_lens(cur) + w.len()) by {
                assert(cur.push(w).drop_last() =~= cur);
            }
            lemma_wrap_rec_budget(ws.skip(1), cutoff, cur.push(w), cur_len + w.len());
            assert(wrap_rec(ws, cutoff, cur, cur_len) == wrap_rec(
                ws.skip(1),
                cutoff,
                cur.push(w),
                cur_len + w.len(),
            ));
        }
    }
}

/// Word-wrap budget: every wrapped line's total word length stays within the
/// budget, except a line that holds a single word longer than the budget,
/// which stands alone and unsplit.
pub proof fn lemma_wrap_budget(text: Seq<char>, cutoff: nat)
    ensures
        forall|i: int|
            0 <= i < wrap_groups(words(text), cutoff).len() ==> sum_lens(
                #[trigger] wrap_groups(words(text), cutoff)[i],
            ) <= cutoff || wrap_groups(words(text), cutoff)[i].len() == 1,
{
    assert(sum_lens(Seq::<Seq<char>>::empty()) == 0);
    lemma_wrap_rec_budget(words(text), cutoff, Seq::empty(), 0);
}

/// Word-wraps a text to a width budget of `cutoff` characters, greedily, the
/// separator spaces not counting toward the budget. The final line is always
/// emitted, so the result is never empty; empty input gives one empty line.
pub fn split_long_text_into_multiple_lines(long_text: String, cutoff: usize) -> (lines: Vec<
    String,
>)
    ensures
        str_views(lines@) == join_all(wrap_groups(words(long_text@), cutoff as nat)),
        lines@.len() == wrap_groups(words(long_text@), cutoff as nat).len(),
        lines@.len() >= 1,
{
    let ws = split_words(long_text.as_str());
    let ghost all_words = words(long_text@);
    let mut lines: Vec<String> = Vec::new();
    let mut current_line = String::new();
    let mut line_length: usize = 0;
    let mut line_empty = true;
    let ghost mut done: Seq<Seq<Seq<char>>> = Seq::empty();
    let ghost mut cur_g: Seq<Seq<char>> = Seq::empty();
    let mut k: usize = 0;
    proof {
        assert(all_words.skip(0) =~= all_words);
        assert(done + wrap_rec(all_words, cutoff as nat, cur_g, 0) =~= wrap_rec(
            all_words,
            cutoff as nat,
            cur_g,
            0,
        ));
        assert(str_views(lines@) =~= Seq::<Seq<char>>::empty());
        assert(join_all(done) =~= Seq::<Seq<char>>::empty());
        assert(join_words(cur_g) == Seq::<char>::empty());
        assert(sum_lens(cur_g) == 0);
    }
    while k < ws.len()
        invariant
            0 <= k <= ws.len(),
            str_views(ws@) == all_words,
            wrap_groups(all_words, cutoff as nat) == done + wrap_rec(
                all_words.skip(k as int),
                cutoff as nat,
                cur_g,
                line_length as nat,
            ),
            str_views(lines@) == join_all(done),
            lines@.len() == done.len(),
            current_line@ == join_words(cur_g),
            line_length == sum_lens(cur_g),
            line_empty <==> cur_g.len() == 0,
        decreases ws@.len() - k,
    {
        let w = &ws[k];
        let wl = w.as_str().unicode_len();
        proof {
            assert(all_words.skip(k as int)[0] == all_words[k as int]);
            assert(all_words[k as int] == w@);
            assert(all_words.skip(k as int).skip(1) =~= all_words.skip(k + 1));
        }
        if line_length > cutoff || wl > cutoff - line_length {
            let ghost old_done = done;
            let ghost old_cur = cur_g;
            let ghost old_lines = lines@;
            let ghost old_line = current_line@;
            lines.push(current_line);
            current_line = String::from_str(w.as_str());
            line_length = wl;
            line_empty = false;
            proof {
                done = done.push(old_cur);
                cur_g = seq![w@];
                let r = wrap_rec(all_words.skip(k + 1), cutoff as nat, cur_g, wl as nat);
                assert(wrap_rec(all_words.skip(k as int), cutoff as nat, old_cur, sum_lens(old_cur))
                    == seq![old_cur] + r);
                assert(old_done + (seq![old_cur] + r) =~= done + r);
                assert(join_words(cur_g) == w@);
                assert(sum_lens(cur_g) == w@.len()) by {
                    assert(cur_g.drop_last() =~= Seq::<Seq<char>>::empty());
                    assert(sum_lens(Seq::<Seq<char>>::empty()) == 0);
                }
                assert(str_views(lines@) =~= str_views(old_lines).push(old_line));
                assert(join_all(done) =~= join_all(old_done).push(join_words(old_cur)));
            }
        } else {
            let ghost old_cur = cur_g;
            let ghost old_line = current_line@;
            if line_empty {
                current_line = String::from_str(w.as_str());
                line_empty = false;
            } else {
                current_line.append(" ");
                current_line.append(w.as_str());
            }
            line_length = line_length + wl;
            proof {
                cur_g = cur_g.push(w@);
                assert(cur_g.drop_last() =~= old_cur);
                assert(sum_lens(cur_g) == sum_lens(old_cur) + w@.len());
                if old_cur.len() == 0 {
                    assert(join_words(cur_g) == w@);
                } else {
                    reveal_strlit(" ");
                    assert(" "@ =~= seq![' ']);
                    assert(join_words(cur_g) == join_words(old_cur) + seq![' '] + w@);
                    assert(current_line@ == old_line + " "@ + w@);
                }
            }
        }
        k += 1;
    }
    let ghost old_done = done;
    let ghost old_cur = cur_g;
    let ghost old_lines = lines@;
    let ghost old_line = current_line@;
    lines.push(current_line);
    proof {
        done = done.push(old_cur);
        assert(all_words.skip(ws@.len() as int).len() == 0);
        assert(wrap_rec(all_words.skip(ws@.len() as int), cutoff as nat, old_cur, sum_lens(old_cur))
            == seq![old_cur]);
        assert(old_done + seq![old_cur] =~= done);
        assert(str_views(lines@) =~= str_views(old_lines).push(old_line));
        assert(join_all(done) =~= join_all(old_done).push(join_words(old_cur)));
    }
    lines
}

/// The wrap budget for a record: twice the country name's character length,
/// with a floor of 30.
pub open spec fn width_budget_spec(name_len: nat) -> nat {
    if 2 * name_len > 30 {
        2 * name_len
    } else {
        30
    }
}

/// Computes the character budget the annotation wraps its text to.
pub fn width_budget(country: &String) -> (r: usize)
    requires
        2 * country@.len() <= usize::MAX,
    ensures
        r == width_budget_spec(country@.len()),
{
    let len = country.as_str().unicode_len();
    if len * 2 > 30 {
        len * 2
    } else {
        30
    }
}

// ---------------------------------------------------------------------------
// Box measurement
// ---------------------------------------------------------------------------

/// The pixel footprint of the whole annotation block.
pub struct BoxDimensions {
    pub width: i32,
    pub height: i32,
}

/// The widest measured width, folded left to right from `acc`.
pub open spec fn fold_max_width(sizes: Seq<(i32, i32)>, acc: int) -> int
    decreases sizes.len(),
{
    if sizes.len() == 0 {
        acc
    } else {
        fold_max_width(
            sizes.skip(1),
            if sizes[0].0 > acc {
                sizes[0].0 as int
            } else {
                acc
            },
        )
    }
}

/// The measured heights summed up, each line followed by half the spacing.
pub open spec fn details_height(sizes: Seq<(i32, i32)>, line_spacing: int) -> int
    decreases sizes.len(),
{
    if sizes.len() == 0 {
        0
    } else {
        sizes[0].1 + line_spacing / 2 + details_height(sizes.skip(1), line_spacing)
    }
}

pub open spec fn box_width_spec(
    name_size: (i32, i32),
    date_size: (i32, i32),
    details: Seq<(i32, i32)>,
) -> int {
    let a = if name_size.0 > 0 {
        name_size.0 as int
    } else {
        0
    };
    let b = if date_size.0 > a {
        date_size.0 as int
    } else {
        a
    };
    fold_max_width(details, b)
}

pub open spec fn box_height_spec(
    name_size: (i32, i32),
    date_size: (i32, i32),
    details: Seq<(i32, i32)>,
    line_spacing: int,
) -> int {
    name_size.1 + line_spacing + date_size.1 + line_spacing + details_height(details, line_spacing)
}

proof fn lemma_details_height_nonneg(sizes: Seq<(i32, i32)>, line_spacing: int)
    requires
        forall|i: int| 0 <= i < sizes.len() ==> (#[trigger] sizes[i]).1 >= 0,
        line_spacing >= 0,
    ensures
        details_height(sizes, line_spacing) >= 0,
    decreases sizes.len(),
{
    if sizes.len() == 0 {
    } else {
        assert(forall|i: int|
            0 <= i < sizes.skip(1).len() ==> (#[trigger] sizes.skip(1)[i]).1 >= 0);
        lemma_details_height_nonneg(sizes.skip(1), line_spacing);
    }
}

/// Aggregates measured text sizes into the background box's dimensions: the
/// country name and the date line each add their height plus the full line
/// spacing, each wrapped detail line adds its height plus half the spacing,
/// and the width is the widest measured width (at least 0). Glyph measurement
/// itself is the font collaborator's work; only the sizes enter here.
pub fn determine_box_size(
    name_size: (i32, i32),
    date_size: (i32, i32),
    detail_sizes: &Vec<(i32, i32)>,
    line_spacing: i32,
) -> (r: BoxDimensions)
    requires
        name_size.1 >= 0,
        date_size.1 >= 0,
        line_spacing >= 0,
        forall|i: int| 0 <= i < detail_sizes@.len() ==> (#[trigger] detail_sizes@[i]).1 >= 0,
        box_height_spec(name_size, date_size, detail_sizes@, line_spacing as int) <= i32::MAX,
    ensures
        r.width == box_width_spec(name_size, date_size, detail_sizes@),
        r.height == box_height_spec(name_size, date_size, detail_sizes@, line_spacing as int),
{
    let mut max_width: i32 = 0;
    if name_size.0 > max_width {
        max_width = name_size.0;
    }
    if date_size.0 > max_width {
        max_width = date_size.0;
    }
    proof {
        lemma_details_height_nonneg(detail_sizes@, line_spacing as int);
    }
    let mut total_height: i32 = name_size.1 + line_spacing + date_size.1 + line_spacing;
    let ghost base_height = total_height as int;
    let ghost base_width = max_width as int;
    let mut j: usize = 0;
    proof {
        assert(detail_sizes@.skip(0) =~= detail_sizes@);
    }
    while j < detail_sizes.len()
        invariant
            0 <= j <= detail_sizes@.len(),
            forall|i: int| 0 <= i < detail_sizes@.len() ==> (#[trigger] detail_sizes@[i]).1 >= 0,
            line_spacing >= 0,
            base_height >= 0,
            base_height + details_height(detail_sizes@, line_spacing as int) <= i32::MAX,
            fold_max_width(detail_sizes@.skip(j as int), max_width as int) == fold_max_width(
                detail_sizes@,
                base_width,
            ),
            total_height == base_height + details_height(detail_sizes@, line_spacing as int)
                - details_height(detail_sizes@.skip(j as int), line_spacing as int),
            total_height >= 0,
        decreases detail_sizes@.len() - j,
    {
        proof {
            assert(detail_sizes@.skip(j as int)[0] == detail_sizes@[j as int]);
            assert(detail_sizes@.skip(j as int).skip(1) =~= detail_sizes@.skip(j + 1));
            assert(forall|i: int|
                0 <= i < detail_sizes@.skip(j + 1).len() ==> (#[trigger] detail_sizes@.skip(
                    j + 1,
                )[i]).1 >= 0);
            lemma_details_height_nonneg(detail_sizes@.skip(j + 1), line_spacing as int);
        }
        let (w, h) = detail_sizes[j];
        if w > max_width {
            max_width = w;
        }
        total_height = total_height + h + line_spacing / 2;
        j += 1;
    }
    proof {
        assert(detail_sizes@.skip(detail_sizes@.len() as int).len() == 0);
    }
    BoxDimensions { width: max_width, height: total_height }
}

// ---------------------------------------------------------------------------
// Text line positions
// ---------------------------------------------------------------------------

/// The y coordinate of each drawn text line of the annotation, in drawing
/// order: the country name at `start_y`, the date line after the big line
/// height plus the full line spacing, then each wrapped detail line after the
/// small line height plus a fixed gap of 5 for the first and half the line
/// spacing between the rest.
pub fn text_line_positions(
    big_height: i32,
    small_height: i32,
    line_spacing: i32,
    n_details: usize,
    start_y: i32,
) -> (ys: Vec<i32>)
    requires
        big_height >= 0,
        small_height >= 0,
        line_spacing >= 0,
        start_y >= 0,
        start_y + big_height + line_spacing + small_height + 5 + (n_details as int) * (
        small_height + line_spacing / 2) <= i32::MAX,
    ensures
        ys@.len() == 2 + n_details,
        ys@[0] == start_y,
        ys@[1] == start_y + big_height + line_spacing,
        n_details > 0 ==> ys@[2] == ys@[1] + small_height + 5,
        forall|j: int|
            2 <= j < ys@.len() - 1 ==> #[trigger] ys@[j + 1] == ys@[j] + small_height + line_spacing
                / 2,
{
    let ghost step = small_height + line_spacing / 2;
    proof {
        assert((n_details as int) * step >= 0) by (nonlinear_arith)
            requires
                n_details as int >= 0,
                step >= 0,
        ;
    }
    let mut ys: Vec<i32> = Vec::new();
    let mut y: i32 = start_y;
    ys.push(y);
    y = y + big_height + line_spacing;
    ys.push(y);
    y = y + small_height + 5;
    let ghost base = start_y + big_height + line_spacing + small_height + 5;
    let mut j: usize = 0;
    while j < n_details
        invariant
            0 <= j <= n_details,
            big_height >= 0,
            small_height >= 0,
            line_spacing >= 0,
            start_y >= 0,
            step == small_height + line_spacing / 2,
            base == start_y + big_height + line_spacing + small_height + 5,
            base + (n_details as int) * step <= i32::MAX,
            ys@.len() == 2 + j,
            ys@[0] == start_y,
            ys@[1] == start_y + big_height + line_spacing,
            j > 0 ==> ys@[2] == ys@[1] + small_height + 5,
            forall|t: int|
                2 <= t < ys@.len() - 1 ==> #[trigger] ys@[t + 1] == ys@[t] + small_height
                    + line_spacing / 2,
            y == base + (j as int) * step,
            j > 0 ==> y == ys@[ys@.len() - 1] + small_height + line_spacing / 2,
        decreases n_details - j,
    {
        proof {
            assert(((j + 1) as int) * step == (j as int) * step + step) by (nonlinear_arith);
            assert(((j + 1) as int) * step <= (n_details as int) * step) by (nonlinear_arith)
                requires
                    j + 1 <= n_details,
                    step >= 0,
            ;
            assert((j as int) * step >= 0) by (nonlinear_arith)
                requires
                    j as int >= 0,
                    step >= 0,
            ;
        }
        ys.push(y);
        y = y + small_height + line_spacing / 2;
        j += 1;
    }
    ys
}

} // verus!
