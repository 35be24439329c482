//! Reading words and numbers out of the bytes of a text.
//!
//! Everything here speaks of positions in one byte sequence: a run of bytes
//! of one class, the words of a line, the lines of a text, and what a word
//! says when it is read as a decimal number or as a vertex index.

use vstd::prelude::*;

verus! {

/// The horizontal tab.
pub const TAB: u8 = 9;

/// The line feed, which ends a line.
pub const LINE_FEED: u8 = 10;

/// The vertical tab.
pub const VERTICAL_TAB: u8 = 11;

/// The form feed.
pub const FORM_FEED: u8 = 12;

/// The carriage return.
pub const CARRIAGE_RETURN: u8 = 13;

/// The space.
pub const SPACE: u8 = 32;

/// The sign `+`.
pub const PLUS: u8 = 43;

/// The sign `-`.
pub const MINUS: u8 = 45;

/// The decimal point `.`.
pub const POINT: u8 = 46;

/// The slash `/`, which ends the vertex index in a corner of a face.
pub const SLASH: u8 = 47;

/// The digit `0`.
pub const DIGIT_ZERO: u8 = 48;

/// The digit `9`.
pub const DIGIT_NINE: u8 = 57;

/// The letter `E`, which begins an exponent.
pub const UPPER_E: u8 = 69;

/// The letter `e`, which begins an exponent.
pub const LOWER_E: u8 = 101;

/// A range of bytes of a text, from `start` up to but not including `end`.
#[derive(Clone, Copy, Debug, PartialEq, Eq, Structural)]
pub struct Span {
    pub start: usize,
    pub end: usize,
}

/// The classes of bytes that a run can consist of.
#[derive(Clone, Copy, Debug, PartialEq, Eq, Structural)]
pub enum Class {
    /// Space, tab, carriage return, vertical tab and form feed.
    Blank,
    /// Every byte that is not blank.
    Word,
    /// The decimal digits.
    Digit,
    /// Every byte but the line feed.
    Line,
}

/// Whether a byte separates words within a line.
pub open spec fn is_blank(b: u8) -> bool {
    b == SPACE || b == TAB || b == VERTICAL_TAB || b == FORM_FEED || b == CARRIAGE_RETURN
}

/// Whether a byte is a decimal digit.
pub open spec fn is_digit(b: u8) -> bool {
    DIGIT_ZERO <= b <= DIGIT_NINE
}

/// Whether a byte is a plus or a minus sign.
pub open spec fn is_sign(b: u8) -> bool {
    b == PLUS || b == MINUS
}

impl Class {
    /// Whether the byte belongs to the class.
    pub open spec fn has(self, b: u8) -> bool {
        match self {
            Class::Blank => is_blank(b),
            Class::Word => !is_blank(b),
            Class::Digit => is_digit(b),
            Class::Line => b != LINE_FEED,
        }
    }

    /// Whether the byte belongs to the class.
    pub fn holds(self, b: u8) -> (held: bool)
        ensures
            held == self.has(b),
    {
        match self {
            Class::Blank => blank(b),
            Class::Word => !blank(b),
            Class::Digit => DIGIT_ZERO <= b && b <= DIGIT_NINE,
            Class::Line => b != LINE_FEED,
        }
    }
}

/// Whether a byte separates words within a line.
fn blank(b: u8) -> (yes: bool)
    ensures
        yes == is_blank(b),
{
    b == SPACE || b == TAB || b == VERTICAL_TAB || b == FORM_FEED || b == CARRIAGE_RETURN
}

/// Whether a byte is a plus or a minus sign.
fn sign(b: u8) -> (yes: bool)
    ensures
        yes == is_sign(b),
{
    b == PLUS || b == MINUS
}

/// Where the run of bytes of `class` that starts at `from` ends: the first
/// position from `from` on that holds a byte of another class, or `to` if
/// there is none before it.
pub open spec fn run_end(text: Seq<u8>, from: int, to: int, class: Class) -> int
    decreases to - from,
{
    if from < to && class.has(text[from]) {
        run_end(text, from + 1, to, class)
    } else {
        from
    }
}

/// A run ends between its start and its limit, holds only bytes of its
/// class, and stops at a byte of another class or at the limit.
pub proof fn lemma_run(text: Seq<u8>, from: int, to: int, class: Class)
    requires
        from <= to,
    ensures
        from <= run_end(text, from, to, class) <= to,
        forall|i: int| from <= i < run_end(text, from, to, class) ==> class.has(#[trigger] text[i]),
        run_end(text, from, to, class) < to ==> !class.has(text[run_end(text, from, to, class)]),
    decreases to - from,
{
    if from < to && class.has(text[from]) {
        lemma_run(text, from + 1, to, class);
    }
}

/// A run that has begun goes on to the same end.
pub proof fn lemma_run_goes_on(text: Seq<u8>, from: int, mid: int, to: int, class: Class)
    requires
        from <= mid <= to,
        forall|i: int| from <= i < mid ==> class.has(#[trigger] text[i]),
    ensures
        run_end(text, from, to, class) == run_end(text, mid, to, class),
    decreases mid - from,
{
    if from < mid {
        lemma_run_goes_on(text, from + 1, mid, to, class);
    }
}

/// Finds the end of the run of bytes of `class` that starts at `from`.
pub fn scan(text: &[u8], from: usize, to: usize, class: Class) -> (stop: usize)
    requires
        from <= to <= text@.len(),
    ensures
        stop == run_end(text@, from as int, to as int, class),
        from <= stop <= to,
{
    let mut i = from;
    while i < to && class.holds(text[i])
        invariant
            from <= i <= to <= text@.len(),
            forall|j: int| from <= j < i ==> class.has(#[trigger] text@[j]),
        decreases to - i,
    {
        i += 1;
    }
    proof {
        lemma_run_goes_on(text@, from as int, i as int, to as int, class);
    }
    i
}

/// The words between `from` and `to`: the runs of bytes that are not blank,
/// in their order.
pub open spec fn words(text: Seq<u8>, from: int, to: int) -> Seq<Span>
    decreases to - from,
{
    let start = run_end(text, from, to, Class::Blank);
    if start < to {
        let end = run_end(text, start, to, Class::Word);
        proof {
            if from <= to {
                lemma_run(text, from, to, Class::Blank);
                lemma_run(text, start + 1, to, Class::Word);
            }
        }
        seq![Span { start: start as usize, end: end as usize }] + words(text, end, to)
    } else {
        Seq::empty()
    }
}

/// Whether one of the spans holds position `i`.
pub open spec fn covers(found: Seq<Span>, i: int) -> bool {
    exists|k: int| 0 <= k < found.len() && (#[trigger] found[k]).start <= i < found[k].end
}

/// The words of a range are what one expects of them: each is a run of bytes
/// that are not blank, they come in their order with at least one byte
/// between two neighbours, and every byte that is not blank lies in one.
pub proof fn lemma_words(text: Seq<u8>, from: int, to: int)
    requires
        0 <= from <= to <= text.len(),
        to <= usize::MAX,
    ensures
        forall|k: int|
            0 <= k < words(text, from, to).len() ==> from <= (#[trigger] words(
                text,
                from,
                to,
            )[k]).start < words(text, from, to)[k].end <= to,
        forall|k: int, i: int|
            0 <= k < words(text, from, to).len() && (#[trigger] words(text, from, to)[k]).start
                <= i < words(text, from, to)[k].end ==> !is_blank(#[trigger] text[i]),
        forall|k: int|
            0 <= k < words(text, from, to).len() - 1 ==> (#[trigger] words(text, from, to)[k]).end
                < words(text, from, to)[k + 1].start,
        forall|i: int|
            from <= i < to && !is_blank(text[i]) ==> #[trigger] covers(words(text, from, to), i),
    decreases to - from,
{
    let found = words(text, from, to);
    let start = run_end(text, from, to, Class::Blank);
    lemma_run(text, from, to, Class::Blank);
    if start < to {
        let end = run_end(text, start, to, Class::Word);
        lemma_run(text, start, to, Class::Word);
        lemma_run(text, start + 1, to, Class::Word);
        let first = Span { start: start as usize, end: end as usize };
        let rest = words(text, end, to);
        lemma_words(text, end, to);
        assert(found == seq![first] + rest);
        assert(found[0] == first);
        assert forall|k: int| 1 <= k < found.len() implies found[k] == rest[k - 1] by {}
        assert forall|k: int, i: int|
            0 <= k < found.len() && (#[trigger] found[k]).start <= i < found[k].end implies !is_blank(
            #[trigger] text[i],
        ) by {
            if k > 0 {
                assert(found[k] == rest[k - 1]);
            } else {
                assert(Class::Word.has(text[i]));
            }
        }
        assert forall|k: int| 0 <= k < found.len() - 1 implies (#[trigger] found[k]).end < found[k
            + 1].start by {
            assert(found[k + 1] == rest[k]);
            if k > 0 {
                assert(found[k] == rest[k - 1]);
            } else {
                // the byte at the end of the first word is blank, so the next word starts later
                assert(end < to);
                assert(!Class::Word.has(text[end]));
                if rest[0].start == end {
                    assert(!is_blank(text[end]));
                }
            }
        }
        assert forall|i: int| from <= i < to && !is_blank(text[i]) implies #[trigger] covers(
            found,
            i,
        ) by {
            if i < start {
                assert(Class::Blank.has(text[i]));
            } else if i < end {
                assert(found[0].start <= i < found[0].end);
            } else {
                assert(covers(rest, i));
                let k = choose|k: int| 0 <= k < rest.len() && (#[trigger] rest[k]).start <= i
                    < rest[k].end;
                assert(found[k + 1] == rest[k]);
                assert(found[k + 1].start <= i < found[k + 1].end);
            }
        }
    } else {
        assert forall|i: int| from <= i < to && !is_blank(text[i]) implies #[trigger] covers(
            found,
            i,
        ) by {
            assert(Class::Blank.has(text[i]));
        }
    }
}

/// Collects the words between `from` and `to`.
pub fn split_words(text: &[u8], from: usize, to: usize) -> (found: Vec<Span>)
    requires
        from <= to <= text@.len(),
    ensures
        found@ == words(text@, from as int, to as int),
        forall|k: int|
            0 <= k < found@.len() ==> from <= (#[trigger] found@[k]).start < found@[k].end <= to,
{
    let mut found: Vec<Span> = Vec::new();
    let mut i = from;
    loop
        invariant_except_break
            words(text@, from as int, to as int) == found@ + words(text@, i as int, to as int),
        invariant
            from <= i <= to <= text@.len(),
            forall|k: int|
                0 <= k < found@.len() ==> from <= (#[trigger] found@[k]).start < found@[k].end
                    <= to,
        ensures
            found@ == words(text@, from as int, to as int),
        decreases to - i,
    {
        let start = scan(text, i, to, Class::Blank);
        if start >= to {
            assert(words(text@, i as int, to as int) =~= Seq::<Span>::empty());
            assert(found@ + Seq::<Span>::empty() =~= found@);
            break ;
        }
        let end = scan(text, start, to, Class::Word);
        proof {
            lemma_run(text@, i as int, to as int, Class::Blank);
            assert(start < end) by {
                assert(Class::Word.has(text@[start as int]));
                lemma_run(text@, start + 1, to as int, Class::Word);
            }
            let word = Span { start, end };
            assert(words(text@, i as int, to as int) == seq![word] + words(
                text@,
                end as int,
                to as int,
            ));
            assert(found@ + (seq![word] + words(text@, end as int, to as int)) =~= found@.push(word)
                + words(text@, end as int, to as int));
        }
        found.push(Span { start, end });
        i = end;
    }
    found
}

/// The lines of a text from position `from` on. Lines end at a line feed,
/// which belongs to none of them, or at the end of the text; after a final
/// line feed comes one more, empty line.
pub open spec fn lines(text: Seq<u8>, from: int) -> Seq<Span>
    decreases text.len() - from,
{
    let end = run_end(text, from, text.len() as int, Class::Line);
    let line = Span { start: from as usize, end: end as usize };
    if end < text.len() {
        proof {
            if from <= text.len() {
                lemma_run(text, from, text.len() as int, Class::Line);
            }
        }
        seq![line] + lines(text, end + 1)
    } else {
        seq![line]
    }
}

/// The lines of a text are what one expects of them: the first starts where
/// asked, the last ends with the text, none holds a line feed, and exactly
/// one line feed stands between two neighbours.
pub proof fn lemma_lines(text: Seq<u8>, from: int)
    requires
        0 <= from <= text.len(),
        text.len() <= usize::MAX,
    ensures
        lines(text, from).len() >= 1,
        lines(text, from)[0].start == from,
        lines(text, from).last().end == text.len(),
        forall|k: int|
            0 <= k < lines(text, from).len() ==> (#[trigger] lines(text, from)[k]).start <= lines(
                text,
                from,
            )[k].end <= text.len(),
        forall|k: int, i: int|
            0 <= k < lines(text, from).len() && (#[trigger] lines(text, from)[k]).start <= i
                < lines(text, from)[k].end ==> #[trigger] text[i] != LINE_FEED,
        forall|k: int|
            0 <= k < lines(text, from).len() - 1 ==> (#[trigger] lines(text, from)[k + 1]).start
                == lines(text, from)[k].end + 1 && text[lines(text, from)[k].end as int] == LINE_FEED,
    decreases text.len() - from,
{
    let found = lines(text, from);
    let end = run_end(text, from, text.len() as int, Class::Line);
    lemma_run(text, from, text.len() as int, Class::Line);
    let first = Span { start: from as usize, end: end as usize };
    assert(found[0] == first);
    if end < text.len() {
        let rest = lines(text, end + 1);
        lemma_lines(text, end + 1);
        assert(found == seq![first] + rest);
        assert forall|k: int| 1 <= k < found.len() implies found[k] == rest[k - 1] by {}
        assert(found.last() == rest.last());
        assert forall|k: int, i: int|
            0 <= k < found.len() && (#[trigger] found[k]).start <= i < found[k].end implies #[trigger] text[i]
            != LINE_FEED by {
            if k > 0 {
                assert(found[k] == rest[k - 1]);
            } else {
                assert(Class::Line.has(text[i]));
            }
        }
        assert forall|k: int| 0 <= k < found.len() - 1 implies (#[trigger] found[k + 1]).start
            == found[k].end + 1 && text[found[k].end as int] == LINE_FEED by {
            assert(found[k + 1] == rest[k]);
            if k > 0 {
                assert(found[k] == rest[k - 1]);
                assert(rest[(k - 1) + 1].start == rest[k - 1].end + 1);
            } else {
                assert(!Class::Line.has(text[end]));
            }
        }
    } else {
        assert forall|k: int, i: int|
            0 <= k < found.len() && (#[trigger] found[k]).start <= i < found[k].end implies #[trigger] text[i]
            != LINE_FEED by {
            assert(Class::Line.has(text[i]));
        }
    }
}

/// Collects the lines of a text.
pub fn split_lines(text: &[u8]) -> (found: Vec<Span>)
    ensures
        found@ == lines(text@, 0),
        forall|i: int| 0 <= i < found@.len() ==> (#[trigger] found@[i]).start <= found@[i].end <= text@.len(),
{
    let n = text.len();
    let mut found: Vec<Span> = Vec::new();
    let mut i: usize = 0;
    loop
        invariant_except_break
            lines(text@, 0) == found@ + lines(text@, i as int),
        invariant
            n == text@.len(),
            i <= n,
            forall|j: int| 0 <= j < found@.len() ==> (#[trigger] found@[j]).start <= found@[j].end <= n,
        ensures
            found@ == lines(text@, 0),
            forall|j: int| 0 <= j < found@.len() ==> (#[trigger] found@[j]).start <= found@[j].end <= n,
        decreases n - i,
    {
        let end = scan(text, i, n, Class::Line);
        let line = Span { start: i, end };
        proof {
            if end < n {
                assert(found@ + (seq![line] + lines(text@, end + 1)) =~= found@.push(line) + lines(
                    text@,
                    end + 1,
                ));
            } else {
                assert(found@ + seq![line] =~= found@.push(line));
            }
        }
        found.push(line);
        if end >= n {
            break ;
        }
        i = end + 1;
    }
    found
}

/// The number that the decimal digits between `from` and `to` spell.
pub open spec fn number(text: Seq<u8>, from: int, to: int) -> int
    decreases to - from,
{
    if to <= from {
        0
    } else {
        number(text, from, to - 1) * 10 + (text[to - 1] - DIGIT_ZERO)
    }
}

/// Whether the bytes between `from` and `to` spell a decimal number: an
/// optional sign, digits with at most one point among them and at least one
/// digit in all, and optionally an exponent, which is `e` or `E`, an optional
/// sign and at least one digit.
pub open spec fn is_decimal(text: Seq<u8>, from: int, to: int) -> bool {
    let first = if from < to && is_sign(text[from]) {
        from + 1
    } else {
        from
    };
    let whole = run_end(text, first, to, Class::Digit);
    let pointed = whole < to && text[whole] == POINT;
    let mantissa = if pointed {
        run_end(text, whole + 1, to, Class::Digit)
    } else {
        whole
    };
    let digits = if pointed {
        mantissa - first - 1
    } else {
        mantissa - first
    };
    let raised = mantissa < to && (text[mantissa] == LOWER_E || text[mantissa] == UPPER_E);
    let power = if mantissa + 1 < to && is_sign(text[mantissa + 1]) {
        mantissa + 2
    } else {
        mantissa + 1
    };
    &&& digits >= 1
    &&& if raised {
        power < to && run_end(text, power, to, Class::Digit) == to
    } else {
        mantissa == to
    }
}

/// Tells whether a word spells a decimal number.
pub fn reads_as_decimal(text: &[u8], word: Span) -> (good: bool)
    requires
        word.start <= word.end <= text@.len(),
    ensures
        good == is_decimal(text@, word.start as int, word.end as int),
{
    let to = word.end;
    let from = word.start;
    let first = if from < to && sign(text[from]) {
        from + 1
    } else {
        from
    };
    let whole = scan(text, first, to, Class::Digit);
    let pointed = whole < to && text[whole] == POINT;
    let mantissa = if pointed {
        scan(text, whole + 1, to, Class::Digit)
    } else {
        whole
    };
    let digits = if pointed {
        mantissa - first - 1
    } else {
        mantissa - first
    };
    if digits < 1 {
        return false;
    }
    if mantissa == to {
        return true;
    }
    if !(text[mantissa] == LOWER_E || text[mantissa] == UPPER_E) {
        return false;
    }
    let power = if mantissa + 1 < to && sign(text[mantissa + 1]) {
        mantissa + 2
    } else {
        mantissa + 1
    };
    if power >= to {
        return false;
    }
    scan(text, power, to, Class::Digit) == to
}

/// The vertex index that the bytes between `from` and `to` spell: an
/// optional sign and at least one digit, up to the end or to the first
/// slash, after which anything may follow. `None` where they spell no
/// number, or one beyond the 64-bit range.
pub open spec fn index_at(text: Seq<u8>, from: int, to: int) -> Option<i64> {
    let first = if from < to && is_sign(text[from]) {
        from + 1
    } else {
        from
    };
    let stop = run_end(text, first, to, Class::Digit);
    let value = number(text, first, stop);
    if first < stop && (stop == to || text[stop] == SLASH) && value <= i64::MAX {
        if from < to && text[from] == MINUS {
            Some((-value) as i64)
        } else {
            Some(value as i64)
        }
    } else {
        None
    }
}

/// A number does not shrink when more digits follow.
pub proof fn lemma_number_grows(text: Seq<u8>, from: int, mid: int, to: int)
    requires
        from <= mid <= to,
        forall|i: int| from <= i < to ==> is_digit(#[trigger] text[i]),
    ensures
        0 <= number(text, from, mid) <= number(text, from, to),
    decreases to - mid,
{
    lemma_number_positive(text, from, mid);
    if mid < to {
        lemma_number_grows(text, from, mid + 1, to);
        lemma_number_positive(text, from, mid + 1);
    }
}

/// Digits spell a number that is not negative.
pub proof fn lemma_number_positive(text: Seq<u8>, from: int, to: int)
    requires
        forall|i: int| from <= i < to ==> is_digit(#[trigger] text[i]),
    ensures
        0 <= number(text, from, to),
    decreases to - from,
{
    if from < to {
        lemma_number_positive(text, from, to - 1);
    }
}

/// Reads a word as a vertex index.
pub fn read_index(text: &[u8], word: Span) -> (index: Option<i64>)
    requires
        word.start <= word.end <= text@.len(),
    ensures
        index == index_at(text@, word.start as int, word.end as int),
{
    let from = word.start;
    let to = word.end;
    let negative = from < to && text[from] == MINUS;
    let first = if from < to && sign(text[from]) {
        from + 1
    } else {
        from
    };
    let stop = scan(text, first, to, Class::Digit);
    if first >= stop || (stop < to && text[stop] != SLASH) {
        return None;
    }
    proof {
        lemma_run(text@, first as int, to as int, Class::Digit);
    }
    let mut value: u64 = 0;
    let mut i = first;
    while i < stop
        invariant
            from == word.start,
            to == word.end,
            first == (if from < to && is_sign(text@[from as int]) {
                from + 1
            } else {
                from as int
            }),
            stop == run_end(text@, first as int, to as int, Class::Digit),
            first <= i <= stop <= text@.len(),
            forall|j: int| first <= j < stop ==> is_digit(#[trigger] text@[j]),
            value == number(text@, first as int, i as int),
            value <= i64::MAX,
        decreases stop - i,
    {
        let digit = (text[i] - DIGIT_ZERO) as u64;
        if value > (0x7fff_ffff_ffff_ffff - digit) / 10 {
            proof {
                lemma_number_grows(text@, first as int, i + 1, stop as int);
                assert(number(text@, first as int, i + 1) == value * 10 + digit);
            }
            return None;
        }
        value = value * 10 + digit;
        i += 1;
    }
    if negative {
        Some(-(value as i64))
    } else {
        Some(value as i64)
    }
}

} // verus!
