use vstd::prelude::*;
use vstd::string::StrSliceExecFns;

verus! {

/// Whether `c` has the Unicode `White_Space` property, as `char::is_whitespace` decides.
pub open spec fn is_whitespace(c: char) -> bool {
    let u = c as u32;
    ||| 0x9 <= u <= 0xD
    ||| u == 0x20
    ||| u == 0x85
    ||| u == 0xA0
    ||| u == 0x1680
    ||| 0x2000 <= u <= 0x200A
    ||| u == 0x2028
    ||| u == 0x2029
    ||| u == 0x202F
    ||| u == 0x205F
    ||| u == 0x3000
}

/// `s` without its leading whitespace.
pub open spec fn trim_start(s: Seq<char>) -> Seq<char>
    decreases s.len(),
{
    if s.len() > 0 && is_whitespace(s[0]) {
        trim_start(s.drop_first())
    } else {
        s
    }
}

/// `s` without its trailing whitespace.
pub open spec fn trim_end(s: Seq<char>) -> Seq<char>
    decreases s.len(),
{
    if s.len() > 0 && is_whitespace(s.last()) {
        trim_end(s.drop_last())
    } else {
        s
    }
}

/// `s` without leading and trailing whitespace.
pub open spec fn trim(s: Seq<char>) -> Seq<char> {
    trim_end(trim_start(s))
}

/// The maximal runs of non-whitespace characters of `s`, in order.
pub open spec fn words(s: Seq<char>) -> Seq<Seq<char>>
    decreases s.len(),
{
    if s.len() == 0 {
        Seq::empty()
    } else if is_whitespace(s.last()) {
        words(s.drop_last())
    } else if s.len() >= 2 && !is_whitespace(s[s.len() - 2]) {
        let w = words(s.drop_last());
        w.drop_last().push(w.last().push(s.last()))
    } else {
        words(s.drop_last()).push(seq![s.last()])
    }
}

pub open spec fn is_digit(c: char) -> bool {
    '0' <= c <= '9'
}

/// The number written by the decimal digits `s`.
pub open spec fn digits_value(s: Seq<char>) -> nat
    decreases s.len(),
{
    if s.len() == 0 {
        0
    } else {
        digits_value(s.drop_last()) * 10 + ((s.last() as u32) - ('0' as u32)) as nat
    }
}

/// `s` without a leading `+`.
pub open spec fn unsigned_part(s: Seq<char>) -> Seq<char> {
    if s.len() > 0 && s[0] == '+' {
        s.drop_first()
    } else {
        s
    }
}

/// The `usize` that the decimal digits `digits` write; `None` where `digits` is empty, holds
/// another character or writes a number that does not fit.
pub open spec fn parse_digits(digits: Seq<char>) -> Option<usize> {
    if digits.len() > 0 && (forall|i: int| 0 <= i < digits.len() ==> #[trigger] is_digit(digits[i]))
        && digits_value(digits) <= usize::MAX {
        Some(digits_value(digits) as usize)
    } else {
        None
    }
}

/// The `usize` that `s` writes in decimal, with an optional leading `+`, as `usize::from_str`
/// reads it; `None` where `s` is no such number or the number does not fit.
pub open spec fn parse_usize_spec(s: Seq<char>) -> Option<usize> {
    parse_digits(unsigned_part(s))
}

/// The numbers written by `texts`, or `None` where one of them is no `usize`.
pub open spec fn parse_all(texts: Seq<Seq<char>>) -> Option<Seq<usize>>
    decreases texts.len(),
{
    if texts.len() == 0 {
        Some(Seq::empty())
    } else {
        match (parse_all(texts.drop_last()), parse_usize_spec(texts.last())) {
            (Some(values), Some(value)) => Some(values.push(value)),
            _ => None,
        }
    }
}

/// Decides the Unicode `White_Space` property.
pub fn char_is_whitespace(c: char) -> (b: bool)
    ensures
        b == is_whitespace(c),
{
    let u = c as u32;
    (0x9 <= u && u <= 0xD) || u == 0x20 || u == 0x85 || u == 0xA0 || u == 0x1680 || (0x2000 <= u
        && u <= 0x200A) || u == 0x2028 || u == 0x2029 || u == 0x202F || u == 0x205F || u == 0x3000
}

proof fn lemma_trim_start_skip(s: Seq<char>, k: int)
    requires
        0 <= k <= s.len(),
        forall|i: int| 0 <= i < k ==> is_whitespace(#[trigger] s[i]),
    ensures
        trim_start(s) == trim_start(s.subrange(k, s.len() as int)),
    decreases k,
{
    if k == 0 {
        assert(s.subrange(0, s.len() as int) =~= s);
    } else {
        assert(is_whitespace(s[0]));
        let t = s.drop_first();
        assert forall|i: int| 0 <= i < k - 1 implies is_whitespace(#[trigger] t[i]) by {
            assert(t[i] == s[i + 1]);
        }
        lemma_trim_start_skip(t, k - 1);
        assert(t.subrange(k - 1, t.len() as int) =~= s.subrange(k, s.len() as int));
    }
}

proof fn lemma_trim_end_skip(s: Seq<char>, k: int)
    requires
        0 <= k <= s.len(),
        forall|i: int| k <= i < s.len() ==> is_whitespace(#[trigger] s[i]),
    ensures
        trim_end(s) == trim_end(s.subrange(0, k)),
    decreases s.len() - k,
{
    if k == s.len() {
        assert(s.subrange(0, k) =~= s);
    } else {
        assert(is_whitespace(s.last()));
        let t = s.drop_last();
        lemma_trim_end_skip(t, k);
        assert(t.subrange(0, k) =~= s.subrange(0, k));
    }
}

/// `text` without leading and trailing whitespace.
pub fn trim_text(text: &str) -> (trimmed: &str)
    ensures
        trimmed@ == trim(text@),
{
    let n = text.unicode_len();
    let mut start: usize = 0;
    while start < n && char_is_whitespace(text.get_char(start))
        invariant
            n == text@.len(),
            start <= n,
            forall|i: int| 0 <= i < start ==> is_whitespace(#[trigger] text@[i]),
        decreases n - start,
    {
        start = start + 1;
    }
    let mut end: usize = n;
    while end > start && char_is_whitespace(text.get_char(end - 1))
        invariant
            n == text@.len(),
            start <= end <= n,
            forall|i: int| end <= i < n ==> is_whitespace(#[trigger] text@[i]),
        decreases end - start,
    {
        end = end - 1;
    }
    proof {
        lemma_trim_start_skip(text@, start as int);
        let rest = text@.subrange(start as int, n as int);
        if start < n {
            assert(!is_whitespace(text@[start as int]));
            assert(rest[0] == text@[start as int]);
        }
        assert(trim_start(rest) == rest);
        assert forall|i: int| end - start <= i < rest.len() implies is_whitespace(#[trigger] rest[i]) by {
            assert(rest[i] == text@[start + i]);
        }
        lemma_trim_end_skip(rest, end - start);
        let core = rest.subrange(0, end - start);
        if end > start {
            assert(core.last() == text@[end - 1]);
            assert(!is_whitespace(text@[end - 1]));
        }
        assert(trim_end(core) == core);
        assert(core =~= text@.subrange(start as int, end as int));
    }
    text.substring_char(start, end)
}


/// The words of `s` extended by the characters of `s` from `k` on, while `s` is read from
/// left to right.
proof fn lemma_words_step(s: Seq<char>, i: int)
    requires
        0 <= i < s.len(),
    ensures
        words(s.take(i + 1)) == if is_whitespace(s[i]) {
            words(s.take(i))
        } else if i >= 1 && !is_whitespace(s[i - 1]) {
            words(s.take(i)).drop_last().push(words(s.take(i)).last().push(s[i]))
        } else {
            words(s.take(i)).push(seq![s[i]])
        },
{
    let t = s.take(i + 1);
    assert(t.drop_last() =~= s.take(i));
    assert(t.last() == s[i]);
    if i >= 1 {
        assert(t[t.len() - 2] == s[i - 1]);
    }
}

/// The words of `text`, in order, as `str::split_whitespace` yields them.
pub fn split_whitespace(text: &str) -> (tokens: Vec<String>)
    ensures
        tokens@.map_values(|t: String| t@) == words(text@),
{
    let n = text.unicode_len();
    let mut tokens: Vec<String> = Vec::new();
    let mut start: Option<usize> = None;
    let mut i: usize = 0;
    while i < n
        invariant
            n == text@.len(),
            i <= n,
            match start {
                Some(st) => {
                    &&& st < i
                    &&& words(text@.take(i as int)) == tokens@.map_values(|t: String| t@).push(
                        text@.subrange(st as int, i as int),
                    )
                },
                None => {
                    &&& words(text@.take(i as int)) == tokens@.map_values(|t: String| t@)
                    &&& i > 0 ==> is_whitespace(text@[i - 1])
                },
            },
            start is Some ==> !is_whitespace(text@[i - 1]),
        decreases n - i,
    {
        let c = text.get_char(i);
        let ws = char_is_whitespace(c);
        proof {
            lemma_words_step(text@, i as int);
        }
        let ghost before = tokens@.map_values(|t: String| t@);
        match start {
            Some(st) => {
                if ws {
                    let token = text.substring_char(st, i).to_owned();
                    tokens.push(token);
                    assert(tokens@.map_values(|t: String| t@) =~= before.push(text@.subrange(st as int, i as int)));
                    start = None;
                } else {
                    assert(text@.subrange(st as int, i as int).push(c) =~= text@.subrange(st as int, i + 1));
                    assert(before.push(text@.subrange(st as int, i as int)).drop_last() =~= before);
                }
            },
            None => {
                if !ws {
                    assert(seq![c] =~= text@.subrange(i as int, i + 1));
                    start = Some(i);
                }
            },
        }
        i = i + 1;
    }
    assert(text@.take(n as int) =~= text@);
    if let Some(st) = start {
        let ghost before = tokens@.map_values(|t: String| t@);
        let token = text.substring_char(st, n).to_owned();
        tokens.push(token);
        assert(tokens@.map_values(|t: String| t@) =~= before.push(text@.subrange(st as int, n as int)));
    }
    tokens
}

proof fn lemma_digits_value_prefix(s: Seq<char>, k: int)
    requires
        0 <= k <= s.len(),
        forall|i: int| 0 <= i < s.len() ==> #[trigger] is_digit(s[i]),
    ensures
        digits_value(s.take(k)) <= digits_value(s),
    decreases s.len() - k,
{
    if k < s.len() {
        let t = s.drop_last();
        assert forall|i: int| 0 <= i < t.len() implies #[trigger] is_digit(t[i]) by {
            assert(t[i] == s[i]);
        }
        lemma_digits_value_prefix(t, k);
        assert(t.take(k) =~= s.take(k));
    } else {
        assert(s.take(k) =~= s);
    }
}

/// Reads a `usize` written in decimal, with an optional leading `+`, as `usize::from_str`
/// does; `None` where `text` is no such number or the number does not fit.
pub fn parse_usize(text: &str) -> (value: Option<usize>)
    ensures
        value == parse_usize_spec(text@),
{
    let n = text.unicode_len();
    let mut start: usize = 0;
    if n > 0 && text.get_char(0) == '+' {
        start = 1;
    }
    let ghost digits = unsigned_part(text@);
    assert(digits =~= text@.subrange(start as int, n as int));
    if start == n {
        return None;
    }
    let mut value: usize = 0;
    let mut i: usize = start;
    while i < n
        invariant
            n == text@.len(),
            start < n,
            start <= i <= n,
            digits =~= text@.subrange(start as int, n as int),
            digits == unsigned_part(text@),
            forall|j: int| 0 <= j < i - start ==> #[trigger] is_digit(digits[j]),
            value == digits_value(digits.take(i - start)),
        decreases n - i,
    {
        let c = text.get_char(i);
        if !('0' <= c && c <= '9') {
            assert(digits[i - start] == c);
            assert(!is_digit(digits[i - start]));
            return None;
        }
        let d = (c as u32 - '0' as u32) as usize;
        assert(digits.take(i + 1 - start).drop_last() =~= digits.take(i - start));
        assert(digits.take(i + 1 - start).last() == c);
        proof {
            assert(digits[i - start] == c);
        }
        let next: u128 = value as u128 * 10 + d as u128;
        if next > usize::MAX as u128 {
            proof {
                assert(digits_value(digits.take(i + 1 - start)) == next);
                if forall|j: int| 0 <= j < digits.len() ==> #[trigger] is_digit(digits[j]) {
                    lemma_digits_value_prefix(digits, i + 1 - start);
                    assert(digits_value(digits) > usize::MAX);
                }
            }
            return None;
        }
        value = next as usize;
        i = i + 1;
    }
    assert(digits.take(n - start) =~= digits);
    Some(value)
}


/// Where a prefix of `texts` holds a word that is no `usize`, so does `texts`.
pub proof fn lemma_parse_all_prefix_none(texts: Seq<Seq<char>>, k: int)
    requires
        0 <= k <= texts.len(),
        parse_all(texts.take(k)) is None,
    ensures
        parse_all(texts) is None,
    decreases texts.len() - k,
{
    if k == texts.len() {
        assert(texts.take(k) =~= texts);
    } else {
        let t = texts.drop_last();
        assert(t.take(k) =~= texts.take(k));
        lemma_parse_all_prefix_none(t, k);
    }
}

/// `w` is a word: nonempty, without whitespace.
pub open spec fn is_word(w: Seq<char>) -> bool {
    w.len() > 0 && forall|i: int| 0 <= i < w.len() ==> !is_whitespace(#[trigger] w[i])
}

/// Appending a word to a text that is empty or ends in whitespace appends it to the words.
pub(crate) proof fn lemma_words_append_word(b: Seq<char>, w: Seq<char>)
    requires
        b.len() == 0 || is_whitespace(b.last()),
        is_word(w),
    ensures
        words(b + w) == words(b).push(w),
    decreases w.len(),
{
    let s = b + w;
    assert(s.last() == w.last());
    assert(!is_whitespace(w[w.len() - 1]));
    if w.len() == 1 {
        assert(s.drop_last() =~= b);
        assert(seq![w.last()] =~= w);
        if s.len() >= 2 {
            assert(s[s.len() - 2] == b.last());
        }
    } else {
        let w1 = w.drop_last();
        assert forall|i: int| 0 <= i < w1.len() implies !is_whitespace(#[trigger] w1[i]) by {
            assert(w1[i] == w[i]);
        }
        lemma_words_append_word(b, w1);
        assert(s.drop_last() =~= b + w1);
        assert(s[s.len() - 2] == w[w.len() - 2]);
        assert(w1.push(w.last()) =~= w);
    }
}

/// Appending whitespace leaves the words unchanged.
pub(crate) proof fn lemma_words_append_space(b: Seq<char>, c: char)
    requires
        is_whitespace(c),
    ensures
        words(b.push(c)) == words(b),
{
    assert(b.push(c).drop_last() =~= b);
}

} // verus!
