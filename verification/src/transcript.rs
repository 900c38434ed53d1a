//! The transcript that a terminal client shows: the latest messages,
//! wrapped to the width of the window and marked up row by row.
use vstd::prelude::*;
use crate::names::texts;
use crate::text::{chars_of, text_of};

verus! {

/// How a piece of a row is shown.
#[derive(Clone, Copy, Debug, PartialEq, Eq, Structural)]
pub enum Tone {
    Plain,
    Bold,
    Faint,
}

/// A piece of a row.
#[derive(Debug)]
pub struct Span {
    pub text: String,
    pub tone: Tone,
}

/// What a piece of a row says and how.
pub type SpanText = (Seq<char>, Tone);

/// What a row says and how, piece by piece.
pub open spec fn row_view(row: Vec<Span>) -> Seq<SpanText> {
    row@.map_values(|s: Span| (s.text@, s.tone))
}

/// What rows say and how.
pub open spec fn rows_view(rows: Seq<Vec<Span>>) -> Seq<Seq<SpanText>> {
    rows.map_values(|r: Vec<Span>| row_view(r))
}

/// The lines into which `textwrap::wrap` breaks `text` for the width
/// `width`, with the algorithm that looks for the best fit.
pub uninterp spec fn wrapped(text: Seq<char>, width: nat) -> Seq<Seq<char>>;

/// `textwrap::wrap` with `Options::new(width)` and the algorithm
/// `WrapAlgorithm::new_optimal_fit()`: the lines of `text`, each as a
/// string of its own.
#[verifier::external_body]
fn wrap(text: &str, width: usize) -> (lines: Vec<String>)
    ensures
        texts(lines@) == wrapped(text@, width as nat),
{
    let options = textwrap::Options::new(width).wrap_algorithm(
        textwrap::WrapAlgorithm::new_optimal_fit(),
    );
    textwrap::wrap(text, options).into_iter().map(|line| line.into_owned()).collect()
}

/// The first position at or after `from` that holds a colon, or the length
/// of `s` where none follows.
pub open spec fn first_colon(s: Seq<char>, from: int) -> int
    decreases s.len() - from,
{
    if from < 0 || from >= s.len() {
        s.len() as int
    } else if s[from] == ':' {
        from
    } else {
        first_colon(s, from + 1)
    }
}

/// Whether `s` holds a colon: the mark of a line that a user has said.
pub open spec fn has_colon(s: Seq<char>) -> bool {
    first_colon(s, 0) < s.len()
}

/// The pieces of `s` from `from` on, which stands behind a colon: the
/// colon, the text up to the next colon, and so on.
pub open spec fn after_colon(s: Seq<char>, from: int) -> Seq<SpanText>
    decreases s.len() - from,
{
    if from < 0 || from > s.len() {
        Seq::empty()
    } else {
        let at = first_colon(s, from);
        seq![(":"@, Tone::Plain), (s.subrange(from, at), Tone::Plain)] + (if from <= at < s.len() {
            after_colon(s, at + 1)
        } else {
            Seq::empty()
        })
    }
}

/// The first row of what a user has said: the text before the first colon
/// in bold, the rest plain, cut at its colons.
pub open spec fn speaker_row(s: Seq<char>) -> Seq<SpanText> {
    let at = first_colon(s, 0);
    seq![(s.subrange(0, at), Tone::Bold)] + (if at < s.len() {
        after_colon(s, at + 1)
    } else {
        Seq::empty()
    })
}

/// The rows of one message. What a user has said begins with the speaker's
/// row and goes on in plain rows; a notice of the server is faint.
pub open spec fn message_rows(said: bool, lines: Seq<Seq<char>>) -> Seq<Seq<SpanText>> {
    if said {
        if lines.len() == 0 {
            Seq::empty()
        } else {
            seq![speaker_row(lines[0])] + Seq::new(
                (lines.len() - 1) as nat,
                |i: int| seq![(lines[i + 1], Tone::Plain)],
            )
        }
    } else {
        Seq::new(lines.len(), |i: int| seq![(lines[i], Tone::Faint)])
    }
}

/// The rows of the messages from number `m` on, for the width `width`.
pub open spec fn rows_from(msgs: Seq<Seq<char>>, m: int, width: nat) -> Seq<Seq<SpanText>>
    decreases msgs.len() - m,
{
    if m < 0 || m >= msgs.len() {
        Seq::empty()
    } else {
        message_rows(has_colon(msgs[m]), wrapped(msgs[m], width)) + rows_from(msgs, m + 1, width)
    }
}

/// The last `k` of `rows`.
pub open spec fn last_rows(rows: Seq<Seq<SpanText>>, k: int) -> Seq<Seq<SpanText>> {
    rows.subrange(rows.len() - k, rows.len() as int)
}

/// What the window shows of `rows` where it has `min_lines` lines: the
/// last rows, as many as it has lines and at least one; where there are
/// fewer rows, empty rows come first.
pub open spec fn shown_rows(rows: Seq<Seq<SpanText>>, min_lines: nat) -> Seq<Seq<SpanText>> {
    let keep = if min_lines == 0 {
        1
    } else {
        min_lines as int
    };
    if rows.len() >= keep {
        last_rows(rows, keep)
    } else {
        Seq::new((min_lines - rows.len()) as nat, |i: int| Seq::<SpanText>::empty()) + rows
    }
}

fn find_colon(chars: &Vec<char>, from: usize) -> (at: usize)
    requires
        from <= chars.len(),
    ensures
        at == first_colon(chars@, from as int),
        from <= at <= chars.len(),
{
    let mut i: usize = from;
    while i < chars.len() && chars[i] != ':'
        invariant
            from <= i <= chars.len(),
            first_colon(chars@, from as int) == first_colon(chars@, i as int),
        decreases chars.len() - i,
    {
        i += 1;
    }
    i
}

/// Whether `text` holds a colon.
pub fn said_by_user(text: &str) -> (said: bool)
    ensures
        said == has_colon(text@),
{
    let chars = chars_of(text);
    find_colon(&chars, 0) < chars.len()
}

/// The first row of what a user has said.
pub fn speaker_row_of(line: &str) -> (row: Vec<Span>)
    ensures
        row_view(row) == speaker_row(line@),
{
    let chars = chars_of(line);
    let mut at: usize = find_colon(&chars, 0);
    let mut row: Vec<Span> = Vec::new();
    row.push(Span { text: text_of(&chars, 0, at), tone: Tone::Bold });
    assert(row_view(row) =~= seq![(chars@.subrange(0, at as int), Tone::Bold)]);
    while at < chars.len()
        invariant
            at <= chars.len(),
            chars@ == line@,
            speaker_row(line@) == row_view(row) + (if at < chars.len() {
                after_colon(chars@, at + 1)
            } else {
                Seq::empty()
            }),
        decreases chars.len() - at,
    {
        let from: usize = at + 1;
        let next: usize = find_colon(&chars, from);
        let ghost had = row_view(row);
        row.push(Span { text: String::from_str(":"), tone: Tone::Plain });
        row.push(Span { text: text_of(&chars, from, next), tone: Tone::Plain });
        proof {
            let added = seq![
                (":"@, Tone::Plain),
                (chars@.subrange(from as int, next as int), Tone::Plain),
            ];
            assert(row_view(row) =~= had + added);
            let rest = if next < chars.len() {
                after_colon(chars@, next + 1)
            } else {
                Seq::empty()
            };
            assert(after_colon(chars@, from as int) == added + rest);
            assert(had + (added + rest) =~= (had + added) + rest);
        }
        at = next;
    }
    assert(row_view(row) + Seq::<SpanText>::empty() =~= row_view(row));
    row
}

fn one_span(text: String, tone: Tone) -> (row: Vec<Span>)
    ensures
        row_view(row) == seq![(text@, tone)],
{
    let mut row: Vec<Span> = Vec::new();
    row.push(Span { text, tone });
    assert(row_view(row) =~= seq![(text@, tone)]);
    row
}

/// The rows of one message that was wrapped into `lines`.
pub fn style_message(said: bool, lines: &Vec<String>) -> (rows: Vec<Vec<Span>>)
    ensures
        rows_view(rows@) == message_rows(said, texts(lines@)),
{
    let mut rows: Vec<Vec<Span>> = Vec::new();
    let ghost wanted = message_rows(said, texts(lines@));
    let mut i: usize = 0;
    assert(rows_view(rows@) =~= wanted.take(0));
    while i < lines.len()
        invariant
            i <= lines.len(),
            wanted == message_rows(said, texts(lines@)),
            wanted.len() == lines.len(),
            rows_view(rows@) == wanted.take(i as int),
        decreases lines.len() - i,
    {
        let row = if said {
            if i == 0 {
                speaker_row_of(lines[i].as_str())
            } else {
                one_span(lines[i].clone(), Tone::Plain)
            }
        } else {
            one_span(lines[i].clone(), Tone::Faint)
        };
        proof {
            assert(texts(lines@)[i as int] == lines@[i as int]@);
            assert(row_view(row) == wanted[i as int]);
            assert(rows_view(rows@.push(row)) =~= rows_view(rows@).push(row_view(row)));
            assert(wanted.take(i + 1) =~= wanted.take(i as int).push(wanted[i as int]));
        }
        rows.push(row);
        i += 1;
    }
    assert(wanted.take(lines.len() as int) =~= wanted);
    rows
}

/// The rows in the opposite order.
fn reversed(rows: Vec<Vec<Span>>) -> (turned: Vec<Vec<Span>>)
    ensures
        rows_view(turned@) == rows_view(rows@).reverse(),
{
    let ghost all = rows_view(rows@);
    let mut rest = rows;
    let mut turned: Vec<Vec<Span>> = Vec::new();
    assert(rows_view(turned@) =~= all.reverse().take(0));
    while rest.len() > 0
        invariant
            rest.len() <= all.len(),
            rows_view(rest@) == all.take(rest.len() as int),
            rows_view(turned@) == all.reverse().take(all.len() - rest.len()),
        decreases rest.len(),
    {
        let ghost n = rest.len() as int;
        let ghost had = rows_view(turned@);
        let row = rest.pop().unwrap();
        proof {
            assert(row_view(row) == all.take(n)[n - 1]);
            assert(rows_view(rest@) =~= all.take(n - 1));
            assert(rows_view(turned@.push(row)) =~= had.push(row_view(row)));
            assert(all.reverse().take(all.len() - n + 1) =~= all.reverse().take(all.len() - n).push(
                all[n - 1],
            ));
        }
        turned.push(row);
    }
    assert(all.reverse().take(all.len() as int) =~= all.reverse());
    turned
}

/// The rows of the later messages are the last rows of all.
proof fn lemma_rows_from_is_tail(msgs: Seq<Seq<char>>, m: int, width: nat)
    requires
        0 <= m <= msgs.len(),
    ensures
        rows_from(msgs, m, width).len() <= rows_from(msgs, 0, width).len(),
        last_rows(rows_from(msgs, 0, width), rows_from(msgs, m, width).len() as int) == rows_from(
            msgs,
            m,
            width,
        ),
    decreases m,
{
    let all = rows_from(msgs, 0, width);
    if m == 0 {
        assert(last_rows(all, all.len() as int) =~= all);
    } else {
        lemma_rows_from_is_tail(msgs, m - 1, width);
        let longer = rows_from(msgs, m - 1, width);
        let shorter = rows_from(msgs, m, width);
        let head = message_rows(has_colon(msgs[m - 1]), wrapped(msgs[m - 1], width));
        assert(longer == head + shorter);
        assert(last_rows(all, shorter.len() as int) =~= last_rows(
            last_rows(all, longer.len() as int),
            shorter.len() as int,
        ));
        assert(last_rows(longer, shorter.len() as int) =~= shorter);
    }
}

/// What the window shows of the messages `msgs`, where it has `min_lines`
/// lines of `max_length` columns: the rows of the latest messages, the
/// latest at the bottom.
pub fn messages_to_list(msgs: &[String], min_lines: usize, max_length: usize) -> (list: Vec<
    Vec<Span>,
>)
    ensures
        rows_view(list@) == shown_rows(
            rows_from(texts(msgs@), 0, max_length as nat),
            min_lines as nat,
        ),
{
    let ghost all_msgs = texts(msgs@);
    let ghost width = max_length as nat;
    let ghost all = rows_from(all_msgs, 0, width);
    let keep: usize = if min_lines == 0 {
        1
    } else {
        min_lines
    };
    let mut items: Vec<Vec<Span>> = Vec::new();
    let mut m: usize = msgs.len();
    assert(rows_view(items@).reverse() =~= rows_from(all_msgs, m as int, width));
    while m > 0 && items.len() < keep
        invariant
            m <= msgs.len(),
            all_msgs == texts(msgs@),
            width == max_length as nat,
            items.len() <= keep,
            items.len() < keep ==> rows_view(items@).reverse() == rows_from(
                all_msgs,
                m as int,
                width,
            ),
            items.len() == keep ==> items.len() <= rows_from(all_msgs, m as int, width).len()
                && rows_view(items@).reverse() == last_rows(
                rows_from(all_msgs, m as int, width),
                keep as int,
            ),
        decreases m,
    {
        m -= 1;
        let ghost later = rows_from(all_msgs, m + 1, width);
        let lines = wrap(msgs[m].as_str(), max_length);
        let mut rows = style_message(said_by_user(msgs[m].as_str()), &lines);
        let ghost these = rows_view(rows@);
        assert(all_msgs[m as int] == msgs@[m as int]@);
        assert(rows_from(all_msgs, m as int, width) == these + later);
        while rows.len() > 0 && items.len() < keep
            invariant
                rows.len() <= these.len(),
                items.len() <= keep,
                rows_view(rows@) == these.take(rows.len() as int),
                rows_view(items@).reverse() == these.skip(rows.len() as int) + later,
            decreases rows.len(),
        {
            let ghost n = rows.len() as int;
            let ghost had = rows_view(items@);
            let row = rows.pop().unwrap();
            proof {
                assert(row_view(row) == these.take(n)[n - 1]);
                assert(rows_view(rows@) =~= these.take(n - 1));
                assert(rows_view(items@.push(row)) =~= had.push(row_view(row)));
                assert(had.push(row_view(row)).reverse() =~= seq![row_view(row)] + had.reverse());
                assert(these.skip(n - 1) =~= seq![these[n - 1]] + these.skip(n));
                assert(seq![these[n - 1]] + (these.skip(n) + later) =~= (seq![these[n - 1]]
                    + these.skip(n)) + later);
            }
            items.push(row);
        }
        proof {
            let now = rows_from(all_msgs, m as int, width);
            let got = rows_view(items@).reverse();
            if rows.len() == 0 {
                assert(these.skip(0) =~= these);
            }
            if items.len() == keep {
                assert(got.len() == keep);
                assert(got =~= last_rows(now, keep as int)) by {
                    assert((these.skip(rows.len() as int) + later).len() == keep);
                    assert forall|k: int| 0 <= k < keep implies got[k] == last_rows(
                        now,
                        keep as int,
                    )[k] by {
                        let cut = rows.len() as int;
                        if k < these.len() - cut {
                            assert(got[k] == these[cut + k]);
                        } else {
                            assert(got[k] == later[k - (these.len() - cut)]);
                        }
                    }
                }
            }
        }
    }
    proof {
        lemma_rows_from_is_tail(all_msgs, m as int, width);
        let now = rows_from(all_msgs, m as int, width);
        if items.len() == keep {
            assert(last_rows(all, keep as int) =~= last_rows(
                last_rows(all, now.len() as int),
                keep as int,
            ));
        } else {
            assert(m == 0);
        }
    }
    let ghost found = rows_view(items@);
    while items.len() < min_lines
        invariant
            found.len() <= items.len() <= min_lines || items.len() == found.len(),
            items.len() >= found.len(),
            rows_view(items@) == found + Seq::new(
                (items.len() - found.len()) as nat,
                |i: int| Seq::<SpanText>::empty(),
            ),
        decreases min_lines - items.len(),
    {
        let ghost had = rows_view(items@);
        let blank: Vec<Span> = Vec::new();
        assert(row_view(blank) =~= Seq::<SpanText>::empty());
        assert(rows_view(items@.push(blank)) =~= had.push(row_view(blank)));
        items.push(blank);
        assert(rows_view(items@) =~= found + Seq::new(
            (items.len() - found.len()) as nat,
            |i: int| Seq::<SpanText>::empty(),
        ));
    }
    proof {
        let pad = Seq::new((items.len() - found.len()) as nat, |i: int| Seq::<SpanText>::empty());
        assert((found + pad).reverse() =~= pad + found.reverse());
        if found.len() == keep {
            assert(pad =~= Seq::<Seq<SpanText>>::empty());
            assert(pad + found.reverse() =~= found.reverse());
        }
    }
    reversed(items)
}

} // verus!
