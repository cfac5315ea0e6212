//! Text as sequences of characters: the small verified vocabulary of string
//! operations that the tokenizer, the chat template and the tool-call parser
//! are written in.

use vstd::prelude::*;
use vstd::string::*;
use vstd::utf8::*;

verus! {

/// `String::push`: appends one character.
pub assume_specification[ String::push ](s: &mut String, c: char)
    ensures
        final(s)@ == old(s)@.push(c),
;

/// The characters of `s`, in order.
pub fn chars_of(s: &str) -> (out: Vec<char>)
    ensures
        out@ == s@,
{
    let mut out: Vec<char> = Vec::new();
    for c in it: s.chars()
        invariant
            out@ == it.seq().take(it.index() as int),
            it.seq() == s@,
    {
        out.push(c);
    }
    out
}

/// Appends the characters `chars[from..to]` to `out`.
pub fn push_range(out: &mut String, chars: &Vec<char>, from: usize, to: usize)
    requires
        from <= to <= chars@.len(),
    ensures
        final(out)@ == old(out)@ + chars@.subrange(from as int, to as int),
{
    let ghost start = out@;
    let mut i: usize = from;
    while i < to
        invariant
            from <= i <= to <= chars@.len(),
            out@ == start + chars@.subrange(from as int, i as int),
        decreases to - i,
    {
        out.push(chars[i]);
        i = i + 1;
    }
}

/// Whether two strings hold the same text.
pub fn same_text(a: &str, b: &str) -> (same: bool)
    ensures
        same == (a@ == b@),
{
    broadcast use encode_utf8_decode_utf8;
    let x = a.as_bytes();
    let y = b.as_bytes();
    if x.len() != y.len() {
        return false;
    }
    let mut i: usize = 0;
    while i < x.len()
        invariant
            i <= x@.len(),
            x@.len() == y@.len(),
            x@ == encode_utf8(a@),
            y@ == encode_utf8(b@),
            x@.take(i as int) == y@.take(i as int),
        decreases x@.len() - i,
    {
        if x[i] != y[i] {
            return false;
        }
        i = i + 1;
    }
    assert(x@ == y@) by {
        assert(x@ == x@.take(i as int));
        assert(y@ == y@.take(i as int));
    }
    assert(decode_utf8(encode_utf8(a@)) == decode_utf8(encode_utf8(b@)));
    true
}

/// Length in bytes of the UTF-8 encoding of `s`.
pub open spec fn byte_len(s: Seq<char>) -> nat {
    encode_utf8(s).len()
}

/// Length of a string in bytes.
pub fn utf8_len(s: &str) -> (n: usize)
    ensures
        n == byte_len(s@),
{
    s.as_bytes().len()
}

/// The texts of a list of strings.
pub open spec fn texts(list: Seq<String>) -> Seq<Seq<char>> {
    list.map_values(|s: String| s@)
}

/// Whether `part` stands in `s` at `at`.
pub open spec fn stands_at(s: Seq<char>, at: int, part: Seq<char>) -> bool {
    0 <= at && at + part.len() <= s.len() && s.subrange(at, at + part.len()) == part
}

/// Whether `part` stands in `chars` at `at`.
pub fn has_at(chars: &Vec<char>, at: usize, part: &Vec<char>) -> (r: bool)
    requires
        at <= chars@.len(),
    ensures
        r == stands_at(chars@, at as int, part@),
{
    let n: usize = chars.len();
    if part.len() > n - at {
        return false;
    }
    let mut i: usize = 0;
    while i < part.len()
        invariant
            i <= part@.len(),
            n == chars@.len(),
            at + part@.len() <= n,
            forall|j: int| 0 <= j < i ==> chars@[at + j] == part@[j],
        decreases part@.len() - i,
    {
        if chars[at + i] != part[i] {
            assert(chars@.subrange(at as int, at + part@.len())[i as int] != part@[i as int]);
            return false;
        }
        i = i + 1;
    }
    assert(chars@.subrange(at as int, at + part@.len()) =~= part@);
    true
}

/// Encoding joins: the bytes of two texts follow each other.
pub proof fn lemma_encode_concat(a: Seq<char>, b: Seq<char>)
    ensures
        encode_utf8(a + b) == encode_utf8(a) + encode_utf8(b),
    decreases a.len(),
{
    if a.len() == 0 {
        assert(a + b =~= b);
        assert(encode_utf8(a) + encode_utf8(b) =~= encode_utf8(b));
    } else {
        lemma_encode_concat(a.drop_first(), b);
        assert((a + b).drop_first() =~= a.drop_first() + b);
        let first = encode_scalar(a[0] as u32);
        assert(first + (encode_utf8(a.drop_first()) + encode_utf8(b)) =~= first + encode_utf8(
            a.drop_first(),
        ) + encode_utf8(b));
    }
}

/// A text has at least as many bytes as characters.
pub proof fn lemma_byte_len_bound(s: Seq<char>)
    ensures
        s.len() <= byte_len(s) <= 4 * s.len(),
    decreases s.len(),
{
    if s.len() > 0 {
        lemma_byte_len_bound(s.drop_first());
    }
}

/// `i` is the first place at or after `from` where `part` stands.
pub open spec fn first_at(s: Seq<char>, from: int, part: Seq<char>, i: int) -> bool {
    &&& from <= i
    &&& stands_at(s, i, part)
    &&& forall|j: int| from <= j < i ==> !#[trigger] stands_at(s, j, part)
}

/// Finds `part` in `chars` at or after `from`.
pub fn find_from(chars: &Vec<char>, from: usize, part: &Vec<char>) -> (r: Option<usize>)
    requires
        from <= chars@.len(),
    ensures
        match r {
            Some(i) => first_at(chars@, from as int, part@, i as int) && i <= chars@.len(),
            None => forall|i: int| from <= i ==> !#[trigger] stands_at(chars@, i, part@),
        },
{
    let n: usize = chars.len();
    let mut i: usize = from;
    loop
        invariant_except_break
            from <= i <= n,
            n == chars@.len(),
            forall|j: int| from <= j < i ==> !#[trigger] stands_at(chars@, j, part@),
        ensures
            forall|j: int| from <= j ==> !#[trigger] stands_at(chars@, j, part@),
        decreases n - i,
    {
        if has_at(chars, i, part) {
            return Some(i);
        }
        if i == n {
            break;
        }
        i = i + 1;
    }
    None
}

/// Whether a character is white space (Unicode's White_Space property).
pub open spec fn is_white(c: char) -> bool {
    ||| '\u{9}' <= c <= '\u{d}'
    ||| c == ' '
    ||| c == '\u{85}'
    ||| c == '\u{a0}'
    ||| c == '\u{1680}'
    ||| '\u{2000}' <= c <= '\u{200a}'
    ||| c == '\u{2028}'
    ||| c == '\u{2029}'
    ||| c == '\u{202f}'
    ||| c == '\u{205f}'
    ||| c == '\u{3000}'
}

/// Whether a character is white space.
pub fn white(c: char) -> (r: bool)
    ensures
        r == is_white(c),
{
    ('\u{9}' <= c && c <= '\u{d}') || c == ' ' || c == '\u{85}' || c == '\u{a0}' || c == '\u{1680}'
        || ('\u{2000}' <= c && c <= '\u{200a}') || c == '\u{2028}' || c == '\u{2029}' || c
        == '\u{202f}' || c == '\u{205f}' || c == '\u{3000}'
}

/// How many white-space characters `s` starts with.
pub open spec fn leading_white(s: Seq<char>) -> nat
    decreases s.len(),
{
    if s.len() > 0 && is_white(s[0]) {
        1 + leading_white(s.drop_first())
    } else {
        0
    }
}

/// `s` without the white space it starts with.
pub open spec fn trim_start(s: Seq<char>) -> Seq<char> {
    s.skip(leading_white(s) as int)
}

/// `s` without the white space it ends with.
pub open spec fn trim_end(s: Seq<char>) -> Seq<char>
    decreases s.len(),
{
    if s.len() > 0 && is_white(s.last()) {
        trim_end(s.drop_last())
    } else {
        s
    }
}

/// `s` without the white space around it.
pub open spec fn trimmed(s: Seq<char>) -> Seq<char> {
    trim_end(trim_start(s))
}

proof fn lemma_leading_white(s: Seq<char>, n: nat)
    requires
        n <= s.len(),
        forall|i: int| 0 <= i < n ==> is_white(#[trigger] s[i]),
        n < s.len() ==> !is_white(s[n as int]),
    ensures
        leading_white(s) == n,
    decreases n,
{
    if n > 0 {
        let rest = s.drop_first();
        assert forall|i: int| 0 <= i < n - 1 implies is_white(#[trigger] rest[i]) by {
            assert(rest[i] == s[i + 1]);
        }
        lemma_leading_white(rest, (n - 1) as nat);
    }
}

/// What [`leading_white`] counts.
pub proof fn lemma_leading_white_is(s: Seq<char>)
    ensures
        leading_white(s) <= s.len(),
        forall|i: int| 0 <= i < leading_white(s) ==> is_white(#[trigger] s[i]),
        leading_white(s) < s.len() ==> !is_white(s[leading_white(s) as int]),
    decreases s.len(),
{
    if s.len() > 0 && is_white(s[0]) {
        let rest = s.drop_first();
        lemma_leading_white_is(rest);
        assert forall|i: int| 0 <= i < leading_white(s) implies is_white(#[trigger] s[i]) by {
            if i > 0 {
                assert(s[i] == rest[i - 1]);
            }
        }
    }
}

/// The position behind the white space at `from`.
pub fn skip_white(chars: &Vec<char>, from: usize) -> (to: usize)
    requires
        from <= chars@.len(),
    ensures
        from <= to <= chars@.len(),
        to == from + leading_white(chars@.skip(from as int)),
{
    let n: usize = chars.len();
    let mut to: usize = from;
    while to < n && white(chars[to])
        invariant
            from <= to <= n,
            n == chars@.len(),
            forall|i: int| from <= i < to ==> is_white(#[trigger] chars@[i]),
        decreases n - to,
    {
        to = to + 1;
    }
    proof {
        let rest = chars@.skip(from as int);
        assert forall|i: int| 0 <= i < to - from implies is_white(#[trigger] rest[i]) by {
            assert(rest[i] == chars@[from + i]);
        }
        lemma_leading_white(rest, (to - from) as nat);
    }
    to
}

/// The bounds of `chars[from..to]` without the white space around it.
pub fn trim_range(chars: &Vec<char>, from: usize, to: usize) -> (r: (usize, usize))
    requires
        from <= to <= chars@.len(),
    ensures
        from <= r.0 <= r.1 <= to,
        chars@.subrange(r.0 as int, r.1 as int) == trimmed(chars@.subrange(from as int, to as int)),
{
    let ghost all = chars@.subrange(from as int, to as int);
    let mut a: usize = from;
    while a < to && white(chars[a])
        invariant
            from <= a <= to <= chars@.len(),
            forall|i: int| from <= i < a ==> is_white(#[trigger] chars@[i]),
        decreases to - a,
    {
        a = a + 1;
    }
    proof {
        assert forall|i: int| 0 <= i < a - from implies is_white(#[trigger] all[i]) by {
            assert(all[i] == chars@[from + i]);
        }
        lemma_leading_white(all, (a - from) as nat);
        assert(trim_start(all) =~= chars@.subrange(a as int, to as int));
    }
    let mut b: usize = to;
    while b > a && white(chars[b - 1])
        invariant
            a <= b <= to <= chars@.len(),
            trim_end(chars@.subrange(a as int, b as int)) == trim_end(
                chars@.subrange(a as int, to as int),
            ),
        decreases b,
    {
        assert(chars@.subrange(a as int, b as int).drop_last() =~= chars@.subrange(
            a as int,
            b - 1,
        ));
        b = b - 1;
    }
    (a, b)
}

/// A text without the white space around it.
pub fn trim(s: &str) -> (out: String)
    ensures
        out@ == trimmed(s@),
{
    let chars = chars_of(s);
    let (a, b) = trim_range(&chars, 0, chars.len());
    assert(chars@.subrange(0, chars@.len() as int) =~= s@);
    let mut out = String::new();
    push_range(&mut out, &chars, a, b);
    out
}

/// Nothing to trim from a text that neither starts nor ends with white space.
pub proof fn lemma_trim_nothing(s: Seq<char>)
    requires
        s.len() > 0 ==> !is_white(s[0]) && !is_white(s.last()),
    ensures
        trimmed(s) == s,
{
    assert(s.skip(0) =~= s);
}

/// Trimming takes off all the white space around a text, and nothing else.
pub proof fn lemma_trim_peels(left: Seq<char>, s: Seq<char>, right: Seq<char>)
    requires
        forall|i: int| 0 <= i < left.len() ==> is_white(#[trigger] left[i]),
        forall|i: int| 0 <= i < right.len() ==> is_white(#[trigger] right[i]),
        s.len() > 0 ==> !is_white(s[0]) && !is_white(s.last()),
    ensures
        trimmed(left + s + right) == s,
{
    let all = left + s + right;
    let n: nat = if s.len() > 0 {
        left.len()
    } else {
        all.len()
    };
    assert forall|i: int| 0 <= i < n implies is_white(#[trigger] all[i]) by {
        if i < left.len() {
            assert(all[i] == left[i]);
        } else {
            assert(all[i] == right[i - left.len()]);
        }
    }
    lemma_leading_white(all, n);
    if s.len() > 0 {
        assert(all.skip(n as int) =~= s + right);
        lemma_end_peels(s, right);
    } else {
        assert(all.skip(n as int) =~= Seq::empty());
        assert(s =~= Seq::empty());
    }
}

proof fn lemma_end_peels(s: Seq<char>, right: Seq<char>)
    requires
        s.len() > 0,
        !is_white(s.last()),
        forall|i: int| 0 <= i < right.len() ==> is_white(#[trigger] right[i]),
    ensures
        trim_end(s + right) == s,
    decreases right.len(),
{
    if right.len() == 0 {
        assert(s + right =~= s);
    } else {
        let head = right.drop_last();
        assert forall|i: int| 0 <= i < head.len() implies is_white(#[trigger] head[i]) by {
            assert(head[i] == right[i]);
        }
        lemma_end_peels(s, head);
        assert((s + right).drop_last() =~= s + head);
        assert((s + right).last() == right[right.len() - 1]);
    }
}

/// What is trimmed off a text: white space on both sides.
pub proof fn lemma_trim_margins(s: Seq<char>) -> (r: (int, int))
    ensures
        0 <= r.0 <= r.1 <= s.len(),
        trimmed(s) == s.subrange(r.0, r.1),
        forall|i: int| 0 <= i < r.0 ==> is_white(#[trigger] s[i]),
        forall|i: int| r.1 <= i < s.len() ==> is_white(#[trigger] s[i]),
        r.0 < r.1 ==> !is_white(s[r.0]) && !is_white(s[r.1 - 1]),
{
    lemma_leading_white_is(s);
    let a = leading_white(s) as int;
    let rest = s.skip(a);
    let n = lemma_end_margin(rest);
    assert(trimmed(s) =~= s.subrange(a, a + n));
    assert forall|i: int| a + n <= i < s.len() implies is_white(#[trigger] s[i]) by {
        assert(rest[i - a] == s[i]);
    }
    if n > 0 {
        assert(rest[n - 1] == s[a + n - 1]);
    }
    (a, a + n)
}

proof fn lemma_end_margin(s: Seq<char>) -> (n: int)
    ensures
        0 <= n <= s.len(),
        trim_end(s) == s.take(n),
        forall|i: int| n <= i < s.len() ==> is_white(#[trigger] s[i]),
        n > 0 ==> !is_white(s[n - 1]),
    decreases s.len(),
{
    if s.len() > 0 && is_white(s.last()) {
        let head = s.drop_last();
        let n = lemma_end_margin(head);
        assert(head.take(n) =~= s.take(n));
        assert forall|i: int| n <= i < s.len() implies is_white(#[trigger] s[i]) by {
            if i < head.len() {
                assert(head[i] == s[i]);
            }
        }
        n
    } else {
        assert(s.take(s.len() as int) =~= s);
        s.len() as int
    }
}

/// The order of texts: by the first character in which they differ, a text
/// before every longer one that it starts.
pub open spec fn text_before(a: Seq<char>, b: Seq<char>) -> bool
    decreases a.len(),
{
    if b.len() == 0 {
        false
    } else if a.len() == 0 {
        true
    } else if a[0] != b[0] {
        a[0] < b[0]
    } else {
        text_before(a.drop_first(), b.drop_first())
    }
}

/// Whether `a` comes before `b`.
pub fn before(a: &Vec<char>, b: &Vec<char>) -> (r: bool)
    ensures
        r == text_before(a@, b@),
{
    let mut i: usize = 0;
    assert(a@.skip(0) =~= a@);
    assert(b@.skip(0) =~= b@);
    while i < a.len() && i < b.len() && a[i] == b[i]
        invariant
            i <= a@.len(),
            i <= b@.len(),
            text_before(a@.skip(i as int), b@.skip(i as int)) == text_before(a@, b@),
        decreases a@.len() - i,
    {
        assert(a@.skip(i as int).drop_first() =~= a@.skip(i + 1));
        assert(b@.skip(i as int).drop_first() =~= b@.skip(i + 1));
        i = i + 1;
    }
    if i >= b.len() {
        false
    } else if i >= a.len() {
        true
    } else {
        a[i] < b[i]
    }
}

/// The digit of a value below ten.
pub open spec fn digit_char(d: nat) -> char {
    (d + 48) as char
}

/// A number in decimal.
pub open spec fn decimal(n: nat) -> Seq<char>
    decreases n,
{
    if n < 10 {
        seq![digit_char(n)]
    } else {
        decimal(n / 10).push(digit_char(n % 10))
    }
}

/// Appends a number in decimal.
pub fn push_decimal(out: &mut String, n: u64)
    ensures
        final(out)@ == old(out)@ + decimal(n as nat),
    decreases n,
{
    let ghost start = out@;
    if n >= 10 {
        push_decimal(out, n / 10);
    }
    let d: u8 = (n % 10) as u8;
    out.push((d + 48u8) as char);
    if n >= 10 {
        assert(out@ =~= start + decimal(n as nat));
    } else {
        assert(start.push(digit_char(n as nat)) =~= start + decimal(n as nat));
    }
}

/// An integer in decimal, with a minus sign where it is negative.
pub open spec fn signed_decimal(i: int) -> Seq<char> {
    if i < 0 {
        seq!['-'] + decimal((-i) as nat)
    } else {
        decimal(i as nat)
    }
}

/// Appends an integer in decimal.
pub fn push_signed(out: &mut String, i: i64)
    ensures
        final(out)@ == old(out)@ + signed_decimal(i as int),
{
    let ghost start = out@;
    if i < 0 {
        out.append("-");
        let magnitude: u64 = if i == i64::MIN {
            0x8000_0000_0000_0000
        } else {
            (-i) as u64
        };
        push_decimal(out, magnitude);
        proof {
            reveal_strlit("-");
            assert("-"@ =~= seq!['-']);
            assert(start + seq!['-'] + decimal(magnitude as nat) =~= start + (seq!['-'] + decimal(
                magnitude as nat,
            )));
        }
    } else {
        push_decimal(out, i as u64);
    }
}

/// What `{:?}` prints for a text.
pub uninterp spec fn debug_text(s: Seq<char>) -> Seq<char>;

/// `format!("{:?}")` of a `str`: the text between quotes, with escapes; the
/// same text always prints the same.
#[verifier::external_body]
pub(crate) fn debug_quoted(s: &str) -> (r: String)
    ensures
        r@ == debug_text(s@),
{
    format!("{s:?}")
}

/// The value of a run of digits, or nothing where a character is no digit.
pub open spec fn digits_value(s: Seq<char>) -> Option<nat>
    decreases s.len(),
{
    if s.len() == 0 {
        Some(0)
    } else if '0' <= s.last() <= '9' {
        match digits_value(s.drop_last()) {
            Some(head) => Some(head * 10 + (s.last() as nat - 48) as nat),
            None => None,
        }
    } else {
        None
    }
}

/// The integer a word spells: digits behind at most one sign.
pub open spec fn word_value(s: Seq<char>) -> Option<int> {
    let signed = s.len() > 0 && (s[0] == '-' || s[0] == '+');
    let digits = if signed {
        s.drop_first()
    } else {
        s
    };
    if digits.len() == 0 {
        None
    } else {
        match digits_value(digits) {
            Some(n) => Some(
                if s[0] == '-' {
                    -n
                } else {
                    n as int
                },
            ),
            None => None,
        }
    }
}

/// The integer a word spells, where it fits.
pub open spec fn parsed_i64(s: Seq<char>) -> Option<i64> {
    match word_value(s) {
        Some(i) => if i64::MIN <= i <= i64::MAX {
            Some(i as i64)
        } else {
            None
        },
        None => None,
    }
}

proof fn lemma_digits_prefix(s: Seq<char>, k: int)
    requires
        0 <= k <= s.len(),
    ensures
        digits_value(s.take(k)) is None ==> digits_value(s) is None,
        digits_value(s) is Some && digits_value(s.take(k)) is Some ==> digits_value(s)->0
            >= digits_value(s.take(k))->0,
    decreases s.len() - k,
{
    if k == s.len() {
        assert(s.take(k) =~= s);
    } else {
        lemma_digits_prefix(s, k + 1);
        assert(s.take(k + 1).drop_last() =~= s.take(k));
    }
}

proof fn lemma_digits_only(s: Seq<char>, i: int)
    requires
        0 <= i < s.len(),
        !('0' <= s[i] <= '9'),
    ensures
        digits_value(s) is None,
    decreases s.len(),
{
    if i < s.len() - 1 {
        lemma_digits_only(s.drop_last(), i);
    }
}

/// A word with a point or an `e` in it spells no integer.
pub proof fn lemma_no_integer(s: Seq<char>)
    requires
        s.contains('.') || s.contains('e'),
    ensures
        parsed_i64(s) is None,
{
    let i = choose|i: int| 0 <= i < s.len() && (s[i] == '.' || s[i] == 'e');
    if s.contains('.') {
        let k = choose|k: int| 0 <= k < s.len() && s[k] == '.';
        assert(s[k] == '.');
    } else {
        let k = choose|k: int| 0 <= k < s.len() && s[k] == 'e';
        assert(s[k] == 'e');
    }
    if s[0] == '-' || s[0] == '+' {
        assert(s.drop_first()[i - 1] == s[i]);
        lemma_digits_only(s.drop_first(), i - 1);
    } else {
        lemma_digits_only(s, i);
    }
}

/// Reads an integer, as a word of digits behind at most one sign.
pub fn parse_i64(word: &Vec<char>) -> (r: Option<i64>)
    ensures
        r == parsed_i64(word@),
{
    let n: usize = word.len();
    if n == 0 {
        return None;
    }
    let negative: bool = word[0] == '-';
    let from: usize = if negative || word[0] == '+' {
        1
    } else {
        0
    };
    let ghost digits = word@.skip(from as int);
    proof {
        if from == 1 {
            assert(digits =~= word@.drop_first());
        } else {
            assert(digits =~= word@);
        }
    }
    if from == n {
        return None;
    }
    let limit: u64 = if negative {
        0x8000_0000_0000_0000
    } else {
        0x7fff_ffff_ffff_ffff
    };
    let mut value: u64 = 0;
    let mut i: usize = from;
    while i < n
        invariant
            from <= i <= n,
            n == word@.len(),
            digits == word@.skip(from as int),
            limit <= 0x8000_0000_0000_0000,
            value <= limit,
            digits_value(digits.take(i - from)) == Some(value as nat),
            limit == (if negative {
                0x8000_0000_0000_0000u64
            } else {
                0x7fff_ffff_ffff_ffffu64
            }),
            from < n,
            negative == (word@[0] == '-'),
            word_value(word@) == (match digits_value(digits) {
                Some(v) => Some(
                    if negative {
                        -v
                    } else {
                        v as int
                    },
                ),
                None => None,
            }),
        decreases n - i,
    {
        let c: char = word[i];
        assert(digits.take(i - from + 1).drop_last() =~= digits.take(i - from));
        assert(digits.take(i - from + 1).last() == c);
        if !('0' <= c && c <= '9') {
            proof {
                lemma_digits_prefix(digits, i - from + 1);
            }
            return None;
        }
        let d: u64 = (c as u64) - 48;
        if value > (limit - d) / 10 {
            proof {
                lemma_digits_prefix(digits, i - from + 1);
                assert(value * 10 + d > limit);
            }
            return None;
        }
        value = value * 10 + d;
        i = i + 1;
    }
    assert(digits.take(n - from) =~= digits);
    if negative {
        if value == 0x8000_0000_0000_0000 {
            Some(i64::MIN)
        } else {
            Some(-(value as i64))
        }
    } else {
        Some(value as i64)
    }
}

proof fn lemma_decimal_digits(n: nat)
    ensures
        decimal(n).len() > 0,
        digits_value(decimal(n)) == Some(n),
        forall|i: int| 0 <= i < decimal(n).len() ==> '0' <= #[trigger] decimal(n)[i] <= '9',
    decreases n,
{
    if n < 10 {
        let s = decimal(n);
        assert(s.drop_last() =~= Seq::empty());
        reveal_with_fuel(digits_value, 2);
    } else {
        lemma_decimal_digits(n / 10);
        let s = decimal(n);
        assert(s.drop_last() =~= decimal(n / 10));
    }
}

/// An integer in decimal reads back as itself, and is made of digits and a
/// sign.
pub proof fn lemma_decimal_reads_back(i: i64)
    ensures
        parsed_i64(signed_decimal(i as int)) == Some(i),
        signed_decimal(i as int).len() > 0,
        forall|k: int|
            0 <= k < signed_decimal(i as int).len() ==> {
                let c = #[trigger] signed_decimal(i as int)[k];
                '0' <= c <= '9' || c == '-'
            },
{
    let s = signed_decimal(i as int);
    if i < 0 {
        lemma_decimal_digits((-i) as nat);
        assert(s.drop_first() =~= decimal((-i) as nat));
    } else {
        lemma_decimal_digits(i as nat);
        assert('0' <= s[0] <= '9');
    }
}

/// The order of texts is total: what comes before another text comes before
/// every third text or that one comes before the other; no text comes before
/// one that comes before it; and two different texts come one before the
/// other.
pub proof fn lemma_text_order(a: Seq<char>, b: Seq<char>, c: Seq<char>)
    ensures
        text_before(a, c) ==> text_before(a, b) || text_before(b, c),
        text_before(a, b) ==> !text_before(b, a),
        !text_before(a, b) && !text_before(b, a) ==> a == b,
    decreases a.len() + b.len() + c.len(),
{
    if a.len() == 0 && b.len() == 0 {
        assert(a =~= b);
    }
    if a.len() > 0 && b.len() > 0 && a[0] == b[0] {
        if c.len() > 0 {
            lemma_text_order(a.drop_first(), b.drop_first(), c.drop_first());
        } else {
            lemma_text_order(a.drop_first(), b.drop_first(), c);
        }
        if a.drop_first() == b.drop_first() {
            assert(a =~= seq![a[0]] + a.drop_first());
            assert(b =~= seq![b[0]] + b.drop_first());
        }
    }
}

/// One text comes before another where they first differ: there it has the
/// smaller character, or it ends.
pub proof fn lemma_text_before_is(a: Seq<char>, b: Seq<char>, k: int)
    requires
        0 <= k <= a.len(),
        k <= b.len(),
        a.take(k) == b.take(k),
        k < a.len() && k < b.len() ==> a[k] != b[k],
    ensures
        text_before(a, b) == if k < a.len() && k < b.len() {
            a[k] < b[k]
        } else {
            k < b.len()
        },
    decreases k,
{
    if k > 0 {
        assert(a.take(k)[0] == a[0] && b.take(k)[0] == b[0]);
        assert(a.drop_first().take(k - 1) =~= a.take(k).drop_first());
        assert(b.drop_first().take(k - 1) =~= b.take(k).drop_first());
        lemma_text_before_is(a.drop_first(), b.drop_first(), k - 1);
    }
}

/// The code points of white space, and no others: tab to carriage return,
/// space, next line, no-break space, the Ogham space, the spaces of fixed
/// width, line and paragraph separator, the narrow and the mathematical space
/// and the ideographic one.
pub proof fn lemma_white_points(c: char)
    ensures
        is_white(c) <==> ({
            let p = c as int;
            ||| 9 <= p <= 13
            ||| p == 32 || p == 133 || p == 160 || p == 5760
            ||| 8192 <= p <= 8202
            ||| p == 8232 || p == 8233 || p == 8239 || p == 8287 || p == 12288
        }),
{
}

/// Digits count by their place: one more multiplies what stood before by ten.
/// Any other character makes it no number.
pub proof fn lemma_digits_by_place(a: Seq<char>, c: char)
    ensures
        digits_value(Seq::empty()) == Some(0nat),
        '0' <= c <= '9' ==> (digits_value(a) matches Some(n) ==> digits_value(a.push(c)) == Some(
            (10 * n + (c as int - 48)) as nat,
        )),
        digits_value(a) is None || !('0' <= c <= '9') ==> digits_value(a.push(c)) is None,
{
    assert(a.push(c).drop_last() =~= a);
}

/// A word spells an integer where it is digits, at least one, behind one sign
/// at most; a minus makes it negative, and it must fit in 64 bits.
pub proof fn lemma_word_spells(digits: Seq<char>)
    requires
        digits.len() > 0,
        digits[0] != '-',
        digits[0] != '+',
    ensures
        match digits_value(digits) {
            Some(n) => {
                &&& parsed_i64(digits) == (if n <= i64::MAX {
                    Some(n as i64)
                } else {
                    None
                })
                &&& parsed_i64(seq!['+'] + digits) == parsed_i64(digits)
                &&& parsed_i64(seq!['-'] + digits) == (if -n >= i64::MIN {
                    Some((-n) as i64)
                } else {
                    None
                })
            },
            None => {
                &&& parsed_i64(digits) is None
                &&& parsed_i64(seq!['+'] + digits) is None
                &&& parsed_i64(seq!['-'] + digits) is None
            },
        },
{
    assert((seq!['+'] + digits).drop_first() =~= digits);
    assert((seq!['-'] + digits).drop_first() =~= digits);
}

/// A number in decimal is written in digits that come to it, and without a
/// zero in front.
pub proof fn lemma_decimal_form(n: nat)
    ensures
        decimal(n).len() > 0,
        digits_value(decimal(n)) == Some(n),
        decimal(n).len() > 1 ==> decimal(n)[0] != '0',
        n > 0 ==> signed_decimal(-n) == seq!['-'] + decimal(n),
        signed_decimal(n as int) == decimal(n),
    decreases n,
{
    if n < 10 {
        assert(decimal(n).drop_last() =~= Seq::empty());
        assert(digits_value(Seq::empty()) == Some(0nat));
        assert(digits_value(decimal(n)) == Some((0 * 10 + n) as nat));
    } else {
        lemma_decimal_form(n / 10);
        assert(decimal(n).drop_last() =~= decimal(n / 10));
        assert(decimal(n)[0] == decimal(n / 10)[0]);
        if decimal(n / 10).len() == 1 {
            assert(n / 10 < 10) by {
                if n / 10 >= 10 {
                    assert(decimal(n / 10).len() == decimal(n / 10 / 10).len() + 1);
                    lemma_decimal_form(n / 10 / 10);
                }
            }
        }
    }
}

} // verus!
