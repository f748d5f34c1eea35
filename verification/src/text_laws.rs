//! What the text primitives promise: which characters trimming takes away,
//! how joining, repeating and replacing go together with putting texts one
//! behind the other, and how numbers are written and read.

use vstd::prelude::*;
#[allow(unused_imports)]
use crate::text;

verus! {

/// Among the ASCII characters, whitespace is the space and the characters from
/// tab to carriage return.
pub proof fn lemma_ascii_whitespace(c: char)
    requires
        (c as u32) < 0x80,
    ensures
        text::is_whitespace(c) <==> c == ' ' || '\t' <= c <= '\r',
{
}

proof fn lemma_trim_start_cut(s: Seq<char>) -> (k: int)
    ensures
        0 <= k <= s.len(),
        text::trim_start(s) == s.skip(k),
        forall|i: int| 0 <= i < k ==> text::is_whitespace(#[trigger] s[i]),
        k < s.len() ==> !text::is_whitespace(s[k]),
    decreases s.len(),
{
    if s.len() > 0 && text::is_whitespace(s[0]) {
        let rest = s.drop_first();
        let k = lemma_trim_start_cut(rest);
        assert(rest.skip(k) =~= s.skip(k + 1));
        assert forall|i: int| 0 <= i < k + 1 implies text::is_whitespace(#[trigger] s[i]) by {
            if i > 0 {
                assert(rest[i - 1] == s[i]);
            }
        }
        if k + 1 < s.len() {
            assert(rest[k] == s[k + 1]);
        }
        k + 1
    } else {
        assert(s.skip(0) =~= s);
        0
    }
}

proof fn lemma_trim_end_cut(s: Seq<char>) -> (k: int)
    ensures
        0 <= k <= s.len(),
        text::trim_end(s) == s.take(k),
        forall|i: int| k <= i < s.len() ==> text::is_whitespace(#[trigger] s[i]),
        k > 0 ==> !text::is_whitespace(s[k - 1]),
    decreases s.len(),
{
    if s.len() > 0 && text::is_whitespace(s.last()) {
        let rest = s.drop_last();
        let k = lemma_trim_end_cut(rest);
        assert(rest.take(k) =~= s.take(k));
        assert forall|i: int| k <= i < s.len() implies text::is_whitespace(#[trigger] s[i]) by {
            if i < rest.len() {
                assert(rest[i] == s[i]);
            }
        }
        if k > 0 {
            assert(rest[k - 1] == s[k - 1]);
        }
        k
    } else {
        assert(s.take(s.len() as int) =~= s);
        s.len() as int
    }
}

/// Trimming cuts a text in three: whitespace, what is left, and whitespace.
/// What is left neither begins nor ends with whitespace; it is empty only if
/// the text is whitespace all through. The two cuts are returned.
pub proof fn lemma_trimmed_between(s: Seq<char>) -> (cuts: (int, int))
    ensures
        0 <= cuts.0 <= cuts.1 <= s.len(),
        text::trimmed(s) == s.subrange(cuts.0, cuts.1),
        forall|i: int|
            0 <= i < s.len() && (i < cuts.0 || cuts.1 <= i) ==> text::is_whitespace(
                #[trigger] s[i],
            ),
        cuts.0 < cuts.1 ==> !text::is_whitespace(s[cuts.0]) && !text::is_whitespace(
            s[cuts.1 - 1],
        ),
{
    let a = lemma_trim_start_cut(s);
    let rest = s.skip(a);
    let b = lemma_trim_end_cut(rest);
    assert(rest.take(b) =~= s.subrange(a, a + b));
    assert forall|i: int| 0 <= i < s.len() && (i < a || a + b <= i) implies text::is_whitespace(
        #[trigger] s[i],
    ) by {
        if i >= a {
            assert(rest[i - a] == s[i]);
        }
    }
    if b > 0 {
        assert(rest[b - 1] == s[a + b - 1]);
        assert(rest[0] == s[a]);
    }
    (a, a + b)
}

/// A text without whitespace at its ends is left as it is, and trimming twice
/// is trimming once.
pub proof fn lemma_trimmed_twice(s: Seq<char>)
    ensures
        s.len() > 0 && !text::is_whitespace(s[0]) && !text::is_whitespace(s.last())
            ==> text::trimmed(s) == s,
        text::trimmed(text::trimmed(s)) == text::trimmed(s),
{
    let (a, b) = lemma_trimmed_between(s);
    let t = text::trimmed(s);
    if s.len() > 0 && !text::is_whitespace(s[0]) && !text::is_whitespace(s.last()) {
        assert(a == 0) by {
            if a > 0 {
                assert(text::is_whitespace(s[0]));
            }
        }
        assert(b == s.len()) by {
            if b < s.len() {
                assert(text::is_whitespace(s[s.len() - 1]));
            }
        }
        assert(t =~= s);
    }
    let (c, d) = lemma_trimmed_between(t);
    if t.len() > 0 {
        if c > 0 {
            assert(text::is_whitespace(t[0]));
            assert(t[0] == s[a]);
        }
        if d < t.len() {
            assert(text::is_whitespace(t[t.len() - 1]));
            assert(t[t.len() - 1] == s[b - 1]);
        }
    }
    assert(t.subrange(c, d) =~= t);
}

/// A list of one text joins to that text; two lists join to what each joins
/// to, with the separator between, unless one of them is empty.
pub proof fn lemma_joined_parts(a: Seq<Seq<char>>, b: Seq<Seq<char>>, separator: Seq<char>)
    ensures
        a.len() == 0 ==> text::joined(a, separator).len() == 0,
        a.len() == 1 ==> text::joined(a, separator) == a[0],
        a.len() > 0 && b.len() > 0 ==> text::joined(a + b, separator) == text::joined(a, separator)
            + separator + text::joined(b, separator),
    decreases b.len(),
{
    if a.len() > 0 && b.len() > 0 {
        let both = a + b;
        assert(both.drop_last() =~= a + b.drop_last());
        assert(both.last() == b.last());
        if b.len() == 1 {
            assert(a + b.drop_last() =~= a);
            assert(text::joined(b, separator) == b[0]);
        } else {
            lemma_joined_parts(a, b.drop_last(), separator);
            assert(text::joined(both, separator) =~= text::joined(a, separator) + separator
                + text::joined(b, separator));
        }
    }
}

/// Repeating a text `a` and then `b` times is repeating it `a + b` times; once
/// is the text itself.
pub proof fn lemma_repeated_parts(s: Seq<char>, a: nat, b: nat)
    ensures
        text::repeated(s, 0).len() == 0,
        text::repeated(s, 1) == s,
        text::repeated(s, a + b) == text::repeated(s, a) + text::repeated(s, b),
    decreases b,
{
    reveal_with_fuel(text::repeated, 2);
    assert(text::repeated(s, 1) =~= s);
    if b == 0 {
        assert(text::repeated(s, a) + text::repeated(s, 0) =~= text::repeated(s, a));
    } else {
        lemma_repeated_parts(s, a, (b - 1) as nat);
        assert(text::repeated(s, a + b) =~= text::repeated(s, a) + text::repeated(s, b));
    }
}

/// Replacing newlines goes character by character: a newline becomes the
/// replacement, any other character stays, and texts one behind the other are
/// replaced one behind the other.
pub proof fn lemma_newlines_replaced_parts(
    a: Seq<char>,
    b: Seq<char>,
    c: char,
    with: Seq<char>,
)
    ensures
        text::newlines_replaced(Seq::empty(), with).len() == 0,
        text::newlines_replaced(seq![c], with) == (if c == '\n' {
            with
        } else {
            seq![c]
        }),
        text::newlines_replaced(a + b, with) == text::newlines_replaced(a, with)
            + text::newlines_replaced(b, with),
    decreases b.len(),
{
    reveal_with_fuel(text::newlines_replaced, 2);
    assert(seq![c].drop_last() =~= Seq::empty());
    assert(text::newlines_replaced(seq![c], with) =~= (if c == '\n' {
        with
    } else {
        seq![c]
    }));
    if b.len() == 0 {
        assert(a + b =~= a);
        assert(text::newlines_replaced(a, with) + text::newlines_replaced(b, with)
            =~= text::newlines_replaced(a, with));
    } else {
        let both = a + b;
        assert(both.drop_last() =~= a + b.drop_last());
        assert(both.last() == b.last());
        lemma_newlines_replaced_parts(a, b.drop_last(), c, with);
        assert(text::newlines_replaced(both, with) =~= text::newlines_replaced(a, with)
            + text::newlines_replaced(b, with));
    }
}

/// A text without newlines is left as it is, and so is any text whose newlines
/// are replaced by a newline.
pub proof fn lemma_newlines_kept(s: Seq<char>, with: Seq<char>)
    ensures
        (forall|i: int| 0 <= i < s.len() ==> #[trigger] s[i] != '\n') ==> text::newlines_replaced(
            s,
            with,
        ) == s,
        text::newlines_replaced(s, seq!['\n']) == s,
    decreases s.len(),
{
    if s.len() > 0 {
        let rest = s.drop_last();
        lemma_newlines_kept(rest, with);
        assert(rest.push(s.last()) =~= s);
        assert(rest + seq!['\n'] =~= rest.push('\n'));
        if forall|i: int| 0 <= i < s.len() ==> #[trigger] s[i] != '\n' {
            assert forall|i: int| 0 <= i < rest.len() implies #[trigger] rest[i] != '\n' by {
                assert(s[i] != '\n');
            }
            assert(s[s.len() - 1] != '\n');
        }
    }
}

/// A number's decimal form: one digit for a number below ten; otherwise the
/// form of its tenth, followed by the digit of what is left. It never begins
/// with a zero, but for zero itself.
pub proof fn lemma_decimal_digits(n: nat, d: nat)
    requires
        d < 10,
    ensures
        text::decimal(d) == seq![(48 + d) as char],
        n > 0 ==> text::decimal(n * 10 + d) == text::decimal(n).push((48 + d) as char),
        text::decimal(n).len() > 0,
        n > 0 ==> text::decimal(n)[0] != '0',
    decreases n,
{
    if n > 0 {
        assert((n * 10 + d) / 10 == n);
        assert((n * 10 + d) % 10 == d);
    }
    if n >= 10 {
        lemma_decimal_digits(n / 10, n % 10);
    }
}

/// A number below zero is written as a minus sign and the decimal form of its
/// magnitude, any other number as its decimal form.
pub proof fn lemma_signed_decimal(n: nat)
    ensures
        text::signed_decimal(n as int) == text::decimal(n),
        n > 0 ==> text::signed_decimal(-(n as int)) == seq!['-'] + text::decimal(n),
{
}

/// One more digit behind a run of digits makes its value ten times as large,
/// plus the digit.
pub proof fn lemma_one_more_digit(s: Seq<char>, c: char)
    requires
        '0' <= c <= '9',
    ensures
        text::digits_value(Seq::empty()) == 0,
        text::digits_value(s.push(c)) == text::digits_value(s) * 10 + (c as u32 - 48),
        text::is_digits(s) || s.len() == 0 ==> text::is_digits(s.push(c)),
{
    assert(s.push(c).drop_last() =~= s);
    if text::is_digits(s) || s.len() == 0 {
        assert forall|i: int| 0 <= i < s.push(c).len() implies text::is_digit(
            #[trigger] s.push(c)[i],
        ) by {
            if i < s.len() {
                assert(text::is_digit(s[i]));
            }
        }
    }
}

/// A text denotes an integer exactly when it is an optional sign and at least
/// one decimal digit, and nothing else. A minus sign negates the value of the
/// digits, a plus sign leaves it.
pub proof fn lemma_integer_shape(s: Seq<char>)
    ensures
        text::i64_value(s) is Some ==> s.len() > 0 && ('0' <= s[0] <= '9' || (s.len() > 1 && (s[0]
            == '-' || s[0] == '+'))) && forall|i: int|
            0 < i < s.len() ==> '0' <= #[trigger] s[i] <= '9',
        s.len() > 0 && (forall|i: int| 0 <= i < s.len() ==> '0' <= #[trigger] s[i] <= '9') ==> {
            let value = text::digits_value(s) as int;
            &&& text::i64_value(s) == (if value <= i64::MAX {
                Some(value as i64)
            } else {
                None
            })
            &&& text::i64_value(seq!['+'] + s) == text::i64_value(s)
            &&& text::i64_value(seq!['-'] + s) == (if -value >= i64::MIN {
                Some((-value) as i64)
            } else {
                None
            })
        },
{
    if text::i64_value(s) is Some {
        assert forall|i: int| 0 < i < s.len() implies '0' <= #[trigger] s[i] <= '9' by {
            if s[0] == '-' || s[0] == '+' {
                assert(text::is_digit(s.drop_first()[i - 1]));
            } else {
                assert(text::is_digit(s[i]));
            }
        }
        if s[0] != '-' && s[0] != '+' {
            assert(text::is_digit(s[0]));
        }
    }
    if s.len() > 0 && (forall|i: int| 0 <= i < s.len() ==> '0' <= #[trigger] s[i] <= '9') {
        assert(text::is_digits(s)) by {
            assert forall|i: int| 0 <= i < s.len() implies text::is_digit(#[trigger] s[i]) by {
                assert('0' <= s[i] <= '9');
            }
        }
        assert((seq!['+'] + s).drop_first() =~= s);
        assert((seq!['-'] + s).drop_first() =~= s);
        assert('0' <= s[0] <= '9');
    }
}

} // verus!
