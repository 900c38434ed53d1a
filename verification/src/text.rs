//! Text as sequences of characters: conversions, comparison, numbers and
//! whitespace-separated tokens.
use vstd::prelude::*;

verus! {

/// `String::push` of the standard library appends one character and leaves
/// the characters before it as they were.
pub assume_specification[ String::push ](s: &mut String, c: char)
    ensures
        final(s)@ == old(s)@.push(c),
;

/// The characters of `s`, in order.
pub fn chars_of(s: &str) -> (v: Vec<char>)
    ensures
        v@ == s@,
{
    let mut v: Vec<char> = Vec::new();
    for c in it: s.chars()
        invariant
            it.seq() == s@,
            v@ == it.seq().take(it.index()),
    {
        v.push(c);
    }
    v
}

/// Appends the characters `v[from..to]` to `out`.
pub fn push_chars(out: &mut String, v: &Vec<char>, from: usize, to: usize)
    requires
        from <= to <= v.len(),
    ensures
        final(out)@ == old(out)@ + v@.subrange(from as int, to as int),
{
    let mut i: usize = from;
    while i < to
        invariant
            from <= i <= to <= v.len(),
            out@ == old(out)@ + v@.subrange(from as int, i as int),
        decreases to - i,
    {
        out.push(v[i]);
        i += 1;
        assert(v@.subrange(from as int, i as int) == v@.subrange(from as int, i - 1).push(
            v@[i - 1],
        ));
    }
}

/// The text made of the characters `v[from..to]`.
pub fn text_of(v: &Vec<char>, from: usize, to: usize) -> (s: String)
    requires
        from <= to <= v.len(),
    ensures
        s@ == v@.subrange(from as int, to as int),
{
    let mut s = String::new();
    push_chars(&mut s, v, from, to);
    s
}

/// Whether two texts hold the same characters.
pub fn same_text(a: &str, b: &str) -> (same: bool)
    ensures
        same == (a@ == b@),
{
    let x = String::from_str(a);
    let y = String::from_str(b);
    x == y
}

/// Whether `a` and `b` agree on every position before `i`.
pub open spec fn agree_before(a: Seq<char>, b: Seq<char>, i: int) -> bool {
    forall|k: int| 0 <= k < i ==> a[k] == b[k]
}

/// Dictionary order on texts: `a` comes strictly before `b` when, at the
/// first position where they differ, `a` has the smaller character, or when
/// `a` is a proper prefix of `b`.
pub open spec fn text_before(a: Seq<char>, b: Seq<char>) -> bool {
    exists|i: int| #[trigger] differs_lower_at(a, b, i)
}

/// `a` and `b` agree before `i`, and at `i` either `a` ends while `b` goes
/// on, or `a` holds the smaller character.
pub open spec fn differs_lower_at(a: Seq<char>, b: Seq<char>, i: int) -> bool {
    &&& 0 <= i <= a.len()
    &&& i < b.len()
    &&& agree_before(a, b, i)
    &&& (i == a.len() || a[i] < b[i])
}

/// Two texts are equal, or one comes strictly before the other, never both
/// ways.
pub proof fn lemma_text_order_total(a: Seq<char>, b: Seq<char>)
    ensures
        a == b || text_before(a, b) || text_before(b, a),
        !(text_before(a, b) && text_before(b, a)),
        !text_before(a, a),
{
    if text_before(a, b) && text_before(b, a) {
        let i = choose|i: int| #[trigger] differs_lower_at(a, b, i);
        let j = choose|j: int| #[trigger] differs_lower_at(b, a, j);
        if i < j {
            assert(b[i] == a[i]);
        } else if j < i {
            assert(a[j] == b[j]);
        }
    }
    if text_before(a, a) {
        let i = choose|i: int| #[trigger] differs_lower_at(a, a, i);
    }
    if a != b && !text_before(a, b) && !text_before(b, a) {
        lemma_first_difference(a, b, 0);
    }
}

/// Texts that agree before `from` and are not equal differ at some later
/// position, which orders them one way or the other.
proof fn lemma_first_difference(a: Seq<char>, b: Seq<char>, from: int)
    requires
        0 <= from <= a.len(),
        from <= b.len(),
        agree_before(a, b, from),
        a != b,
    ensures
        text_before(a, b) || text_before(b, a),
    decreases a.len() - from,
{
    if from == a.len() {
        if from == b.len() {
            assert(a =~= b);
        } else {
            assert(differs_lower_at(a, b, from));
        }
    } else if from == b.len() {
        assert(agree_before(b, a, from));
        assert(differs_lower_at(b, a, from));
    } else if a[from] < b[from] {
        assert(differs_lower_at(a, b, from));
    } else if b[from] < a[from] {
        assert(agree_before(b, a, from));
        assert(differs_lower_at(b, a, from));
    } else {
        lemma_first_difference(a, b, from + 1);
    }
}

/// The dictionary order is transitive.
pub proof fn lemma_text_order_transitive(a: Seq<char>, b: Seq<char>, c: Seq<char>)
    requires
        text_before(a, b),
        text_before(b, c),
    ensures
        text_before(a, c),
{
    let i = choose|i: int| #[trigger] differs_lower_at(a, b, i);
    let j = choose|j: int| #[trigger] differs_lower_at(b, c, j);
    if i <= j {
        assert(agree_before(a, c, i));
        assert(differs_lower_at(a, c, i));
    } else {
        assert(agree_before(a, c, j));
        assert(a[j] == b[j]);
        assert(differs_lower_at(a, c, j));
    }
}

/// Whether `a` comes strictly before `b` in dictionary order.
pub fn text_less(a: &str, b: &str) -> (less: bool)
    ensures
        less == text_before(a@, b@),
{
    let x = chars_of(a);
    let y = chars_of(b);
    let mut i: usize = 0;
    while i < x.len() && i < y.len()
        invariant
            i <= x.len(),
            i <= y.len(),
            x@ == a@,
            y@ == b@,
            agree_before(x@, y@, i as int),
        decreases x.len() - i,
    {
        if x[i] < y[i] {
            assert(differs_lower_at(x@, y@, i as int));
            return true;
        }
        if y[i] < x[i] {
            assert(agree_before(y@, x@, i as int));
            assert(differs_lower_at(y@, x@, i as int));
            proof {
                lemma_text_order_total(x@, y@);
            }
            return false;
        }
        i += 1;
    }
    if i < y.len() {
        assert(differs_lower_at(x@, y@, i as int));
        true
    } else {
        proof {
            if text_before(x@, y@) {
                let k = choose|k: int| #[trigger] differs_lower_at(x@, y@, k);
                assert(k < y.len());
            }
        }
        false
    }
}

/// The character that stands for the digit `d`.
pub open spec fn digit_char(d: nat) -> char {
    (48 + d) as char
}

/// The decimal numeral of `n`, without leading zeros.
pub open spec fn decimal(n: nat) -> Seq<char>
    decreases n,
{
    if n < 10 {
        seq![digit_char(n)]
    } else {
        decimal(n / 10).push(digit_char(n % 10))
    }
}

fn digit_of(d: u8) -> (c: char)
    requires
        d < 10,
    ensures
        c == digit_char(d as nat),
{
    (48u8 + d) as char
}

/// Appends the decimal numeral of `n` to `out`.
pub fn push_decimal(out: &mut String, n: u64)
    ensures
        final(out)@ == old(out)@ + decimal(n as nat),
{
    let mut digits: Vec<char> = Vec::new();
    let mut rest: u64 = n;
    while rest >= 10
        invariant
            decimal(n as nat) == decimal(rest as nat) + digits@.reverse(),
        decreases rest,
    {
        let d = digit_of((rest % 10) as u8);
        proof {
            let r = rest as nat;
            assert(decimal(r) == decimal(r / 10).push(digit_char(r % 10)));
            assert(digits@.push(d).reverse() == seq![d] + digits@.reverse());
            assert(decimal(r / 10).push(d) + digits@.reverse() == decimal(r / 10) + (seq![d]
                + digits@.reverse()));
        }
        digits.push(d);
        rest = rest / 10;
    }
    let d = digit_of(rest as u8);
    out.push(d);
    let mut i: usize = digits.len();
    assert(decimal(rest as nat) == seq![d]);
    while i > 0
        invariant
            i <= digits.len(),
            out@ == old(out)@ + seq![d] + digits@.reverse().subrange(0, digits.len() - i),
        decreases i,
    {
        i -= 1;
        out.push(digits[i]);
        proof {
            let rev = digits@.reverse();
            let k = digits.len() - i;
            assert(rev.subrange(0, k) == rev.subrange(0, k - 1).push(rev[k - 1]));
        }
    }
    assert(digits@.reverse().subrange(0, digits.len() as int) == digits@.reverse());
}

/// The decimal numeral of `n`.
pub fn decimal_text(n: u64) -> (s: String)
    ensures
        s@ == decimal(n as nat),
{
    let mut s = String::new();
    push_decimal(&mut s, n);
    s
}

/// The line feed, which ends a line on the wire.
pub open spec fn newline_free(s: Seq<char>) -> bool {
    forall|k: int| 0 <= k < s.len() ==> s[k] != '\n'
}

/// A numeral holds digits only.
pub proof fn lemma_decimal_newline_free(n: nat)
    ensures
        newline_free(decimal(n)),
        decimal(n).len() >= 1,
    decreases n,
{
    if n >= 10 {
        lemma_decimal_newline_free(n / 10);
    }
}

/// The characters that separate the words of a line: space, tab, line feed,
/// form feed and carriage return.
pub open spec fn is_blank(c: char) -> bool {
    c == ' ' || c == '\t' || c == '\n' || c == '\x0C' || c == '\r'
}

pub fn blank(c: char) -> (b: bool)
    ensures
        b == is_blank(c),
{
    c == ' ' || c == '\t' || c == '\n' || c == '\x0C' || c == '\r'
}

/// The first position at or after `i` that holds no blank, or the length of
/// `s` where only blanks follow.
pub open spec fn skip_blanks(s: Seq<char>, i: int) -> int
    decreases s.len() - i,
{
    if 0 <= i < s.len() && is_blank(s[i]) {
        skip_blanks(s, i + 1)
    } else {
        i
    }
}

/// The first position at or after `i` that holds a blank, or the length of
/// `s` where none follows.
pub open spec fn skip_word(s: Seq<char>, i: int) -> int
    decreases s.len() - i,
{
    if 0 <= i < s.len() && !is_blank(s[i]) {
        skip_word(s, i + 1)
    } else {
        i
    }
}

/// The word number `k`, counted from 0, among the words of `s` that start
/// at or after `i`. A word is a longest run of characters that are not
/// blank.
pub open spec fn word_from(s: Seq<char>, i: int, k: nat) -> Option<Seq<char>>
    decreases k,
{
    let start = skip_blanks(s, i);
    let end = skip_word(s, start);
    if start >= s.len() {
        None
    } else if k == 0 {
        Some(s.subrange(start, end))
    } else {
        word_from(s, end, (k - 1) as nat)
    }
}

/// The word number `k` of `s`, counted from 0.
pub open spec fn word(s: Seq<char>, k: nat) -> Option<Seq<char>> {
    word_from(s, 0, k)
}

pub proof fn lemma_skip_bounds(s: Seq<char>, i: int)
    requires
        0 <= i <= s.len(),
    ensures
        i <= skip_blanks(s, i) <= s.len(),
        i <= skip_word(s, i) <= s.len(),
        skip_blanks(s, i) < s.len() ==> skip_blanks(s, i) < skip_word(s, skip_blanks(s, i)),
        forall|k: int| i <= k < skip_word(s, i) ==> !is_blank(#[trigger] s[k]),
    decreases s.len() - i,
{
    if i < s.len() {
        lemma_skip_bounds(s, i + 1);
    }
}

fn pass_blanks(line: &Vec<char>, from: usize) -> (to: usize)
    requires
        from <= line.len(),
    ensures
        to == skip_blanks(line@, from as int),
        from <= to <= line.len(),
{
    let mut i: usize = from;
    while i < line.len() && blank(line[i])
        invariant
            from <= i <= line.len(),
            skip_blanks(line@, from as int) == skip_blanks(line@, i as int),
        decreases line.len() - i,
    {
        i += 1;
    }
    i
}

fn pass_word(line: &Vec<char>, from: usize) -> (to: usize)
    requires
        from <= line.len(),
    ensures
        to == skip_word(line@, from as int),
        from <= to <= line.len(),
{
    let mut i: usize = from;
    while i < line.len() && !blank(line[i])
        invariant
            from <= i <= line.len(),
            skip_word(line@, from as int) == skip_word(line@, i as int),
        decreases line.len() - i,
    {
        i += 1;
    }
    i
}

/// The word number `k` of `line`, counted from 0, where it has that many.
pub fn nth_word(line: &Vec<char>, k: usize) -> (w: Option<String>)
    ensures
        w is Some == word(line@, k as nat) is Some,
        w is Some ==> w.unwrap()@ == word(line@, k as nat).unwrap(),
{
    let mut at: usize = 0;
    let mut left: usize = k;
    loop
        invariant
            at <= line.len(),
            left <= k,
            word(line@, k as nat) == word_from(line@, at as int, left as nat),
        decreases left,
    {
        let start = pass_blanks(line, at);
        if start >= line.len() {
            return None;
        }
        let end = pass_word(line, start);
        if left == 0 {
            return Some(text_of(line, start, end));
        }
        at = end;
        left -= 1;
    }
}

/// The texts `items` with `sep` between each two neighbours.
pub open spec fn separated(items: Seq<Seq<char>>, sep: Seq<char>) -> Seq<char>
    decreases items.len(),
{
    if items.len() == 0 {
        Seq::<char>::empty()
    } else if items.len() == 1 {
        items[0]
    } else {
        separated(items.drop_last(), sep) + sep + items.last()
    }
}

/// Appends the texts `items` to `out`, with `sep` between each two
/// neighbours.
pub fn push_separated(out: &mut String, items: &Vec<String>, sep: &str)
    ensures
        final(out)@ == old(out)@ + separated(items@.map_values(|s: String| s@), sep@),
{
    let ghost texts = items@.map_values(|s: String| s@);
    let mut i: usize = 0;
    assert(old(out)@ + separated(texts.take(0), sep@) == old(out)@);
    while i < items.len()
        invariant
            i <= items.len(),
            texts == items@.map_values(|s: String| s@),
            out@ == old(out)@ + separated(texts.take(i as int), sep@),
        decreases items.len() - i,
    {
        proof {
            let now = texts.take(i + 1);
            assert(now.drop_last() == texts.take(i as int));
            assert(now.last() == items@[i as int]@);
            if i > 0 {
                assert(separated(now, sep@) == separated(now.drop_last(), sep@) + sep@
                    + now.last());
                assert(old(out)@ + separated(now.drop_last(), sep@) + sep@ + now.last() == old(
                    out,
                )@ + (separated(now.drop_last(), sep@) + sep@ + now.last()));
            } else {
                assert(separated(now, sep@) == now[0]);
                assert(separated(texts.take(0), sep@) == Seq::<char>::empty());
                assert(old(out)@ + Seq::<char>::empty() + now[0] == old(out)@ + now[0]);
            }
        }
        if i > 0 {
            out.append(sep);
        }
        out.append(items[i].as_str());
        i += 1;
    }
    assert(texts.take(items.len() as int) == texts);
}

/// Texts without a line feed, one after the other, have none.
pub proof fn lemma_joined_newline_free(a: Seq<char>, b: Seq<char>)
    requires
        newline_free(a),
        newline_free(b),
    ensures
        newline_free(a + b),
{
    assert forall|k: int| 0 <= k < (a + b).len() implies (a + b)[k] != '\n' by {
        if k < a.len() {
            assert((a + b)[k] == a[k]);
        } else {
            assert((a + b)[k] == b[k - a.len()]);
        }
    }
}

/// Texts without a line feed, with a separator without one between them,
/// have none.
pub proof fn lemma_separated_newline_free(items: Seq<Seq<char>>, sep: Seq<char>)
    requires
        forall|i: int| 0 <= i < items.len() ==> newline_free(#[trigger] items[i]),
        newline_free(sep),
    ensures
        newline_free(separated(items, sep)),
    decreases items.len(),
{
    if items.len() > 1 {
        let front = items.drop_last();
        assert forall|i: int| 0 <= i < front.len() implies newline_free(#[trigger] front[i]) by {
            assert(front[i] == items[i]);
        }
        lemma_separated_newline_free(front, sep);
        lemma_joined_newline_free(separated(front, sep), sep);
        lemma_joined_newline_free(separated(front, sep) + sep, items.last());
    } else if items.len() == 1 {
        assert(newline_free(items[0]));
    }
}

/// A word of a text without a line feed has none.
pub proof fn lemma_word_newline_free(s: Seq<char>, i: int, k: nat)
    requires
        0 <= i <= s.len(),
        newline_free(s),
    ensures
        word_from(s, i, k) is Some ==> newline_free(word_from(s, i, k).unwrap()),
    decreases k,
{
    lemma_skip_bounds(s, i);
    let start = skip_blanks(s, i);
    if start < s.len() {
        lemma_skip_bounds(s, start);
        let end = skip_word(s, start);
        if k == 0 {
            let w = s.subrange(start, end);
            assert forall|j: int| 0 <= j < w.len() implies w[j] != '\n' by {
                assert(w[j] == s[start + j]);
            }
        } else {
            lemma_word_newline_free(s, end, (k - 1) as nat);
        }
    }
}

} // verus!
