//! Text handling on which every file format of the play rests: white space,
//! trimming, splitting into tokens, and reading a line number.

use vstd::prelude::*;

verus! {

/// Whether `c` has the Unicode property `White_Space`.
pub open spec fn white_space(c: char) -> bool {
    let n = c as u32;
    ||| 0x09 <= n <= 0x0D
    ||| n == 0x20
    ||| n == 0x85
    ||| n == 0xA0
    ||| n == 0x1680
    ||| 0x2000 <= n <= 0x200A
    ||| n == 0x2028
    ||| n == 0x2029
    ||| n == 0x202F
    ||| n == 0x205F
    ||| n == 0x3000
}

/// Whether `s` holds nothing but white space.
pub open spec fn blank(s: Seq<char>) -> bool {
    forall|i: int| 0 <= i < s.len() ==> white_space(#[trigger] s[i])
}

/// Length of the longest prefix of `s` that holds no white space.
pub open spec fn word_len(s: Seq<char>) -> nat
    decreases s.len(),
{
    if s.len() == 0 || white_space(s[0]) {
        0
    } else {
        1 + word_len(s.drop_first())
    }
}

/// `s` without its leading white space.
pub open spec fn trim_start(s: Seq<char>) -> Seq<char>
    decreases s.len(),
{
    if s.len() > 0 && white_space(s[0]) {
        trim_start(s.drop_first())
    } else {
        s
    }
}

/// `s` without its trailing white space.
pub open spec fn trim_end(s: Seq<char>) -> Seq<char>
    decreases s.len(),
{
    if s.len() > 0 && white_space(s.last()) {
        trim_end(s.drop_last())
    } else {
        s
    }
}

/// `s` without leading and trailing white space.
pub open spec fn trimmed(s: Seq<char>) -> Seq<char> {
    trim_end(trim_start(s))
}

/// The maximal runs of non-white-space characters of `s`, left to right.
pub open spec fn tokens(s: Seq<char>) -> Seq<Seq<char>>
    decreases s.len(),
{
    if s.len() == 0 {
        Seq::empty()
    } else if white_space(s[0]) {
        tokens(s.drop_first())
    } else {
        proof {
            lemma_word_len_bound(s);
        }
        seq![s.take(word_len(s) as int)] + tokens(s.skip(word_len(s) as int))
    }
}

/// The tokens joined by single spaces.
pub open spec fn joined(words: Seq<Seq<char>>) -> Seq<char>
    decreases words.len(),
{
    if words.len() == 0 {
        Seq::empty()
    } else if words.len() == 1 {
        words[0]
    } else {
        joined(words.drop_last()) + seq![' '] + words.last()
    }
}

/// The prefix that `word_len` measures holds no white space, and ends at the
/// end of `s` or before a white-space character.
pub proof fn lemma_word_len_bound(s: Seq<char>)
    ensures
        word_len(s) <= s.len(),
        word_len(s) < s.len() ==> white_space(s[word_len(s) as int]),
        forall|i: int| 0 <= i < word_len(s) ==> !white_space(#[trigger] s[i]),
    decreases s.len(),
{
    if s.len() == 0 || white_space(s[0]) {
    } else {
        let t = s.drop_first();
        lemma_word_len_bound(t);
        assert forall|i: int| 0 <= i < word_len(s) implies !white_space(#[trigger] s[i]) by {
            if i > 0 {
                assert(s[i] == t[i - 1]);
            }
        }
        if word_len(s) < s.len() {
            assert(s[word_len(s) as int] == t[word_len(t) as int]);
        }
    }
}

/// Length of the longest prefix of `s` that holds no line feed.
pub open spec fn line_len(s: Seq<char>) -> nat
    decreases s.len(),
{
    if s.len() == 0 || s[0] == '\n' {
        0
    } else {
        1 + line_len(s.drop_first())
    }
}

/// The prefix that `line_len` measures holds no line feed, and ends at the
/// end of `s` or before a line feed.
pub proof fn lemma_line_len_bound(s: Seq<char>)
    ensures
        line_len(s) <= s.len(),
        line_len(s) < s.len() ==> s[line_len(s) as int] == '\n',
        forall|i: int| 0 <= i < line_len(s) ==> #[trigger] s[i] != '\n',
    decreases s.len(),
{
    if s.len() == 0 || s[0] == '\n' {
    } else {
        let t = s.drop_first();
        lemma_line_len_bound(t);
        assert forall|i: int| 0 <= i < line_len(s) implies #[trigger] s[i] != '\n' by {
            if i > 0 {
                assert(s[i] == t[i - 1]);
            }
        }
        if line_len(s) < s.len() {
            assert(s[line_len(s) as int] == t[line_len(t) as int]);
        }
    }
}

/// The lines of a text, each without the white space around it. A line ends
/// at a line feed or at the end of the text; a text that ends with a line
/// feed has no further line behind it.
pub open spec fn text_lines(s: Seq<char>) -> Seq<Seq<char>>
    decreases s.len(),
{
    if s.len() == 0 {
        Seq::empty()
    } else {
        proof {
            lemma_line_len_bound(s);
        }
        let n = line_len(s) as int;
        if n < s.len() {
            seq![trimmed(s.take(n))] + text_lines(s.skip(n + 1))
        } else {
            seq![trimmed(s)]
        }
    }
}

/// The white-space test of `char::is_whitespace`, computed on the code point.
pub fn is_whitespace(c: char) -> (b: bool)
    ensures
        b == white_space(c),
{
    let n: u32 = c as u32;
    (0x09 <= n && n <= 0x0D) || n == 0x20 || n == 0x85 || n == 0xA0 || n == 0x1680 || (0x2000 <= n
        && n <= 0x200A) || n == 0x2028 || n == 0x2029 || n == 0x202F || n == 0x205F || n == 0x3000
}

/// The characters of `s`, one by one.
pub fn to_chars(s: &str) -> (v: Vec<char>)
    ensures
        v@ == s@,
{
    let mut v: Vec<char> = Vec::new();
    for c in it: s.chars()
        invariant
            v@ == it.seq().take(it.index()),
            it.seq() == s@,
    {
        v.push(c);
    }
    v
}

/// Whether `s` holds nothing but white space.
pub fn is_blank(s: &str) -> (b: bool)
    ensures
        b == blank(s@),
{
    let chars = to_chars(s);
    let mut i: usize = 0;
    while i < chars.len()
        invariant
            i <= chars.len(),
            chars@ == s@,
            forall|k: int| 0 <= k < i ==> white_space(#[trigger] s@[k]),
        decreases chars.len() - i,
    {
        if !is_whitespace(chars[i]) {
            return false;
        }
        i += 1;
    }
    true
}

/// `s` without leading and trailing white space.
pub fn trim(s: &str) -> (r: String)
    ensures
        r@ == trimmed(s@),
{
    let chars = to_chars(s);
    let n = chars.len();
    let mut a: usize = 0;
    assert(s@.skip(0) =~= s@);
    while a < n && is_whitespace(chars[a])
        invariant
            a <= n,
            n == chars.len(),
            chars@ == s@,
            trim_start(s@) == trim_start(s@.skip(a as int)),
        decreases n - a,
    {
        proof {
            assert(s@.skip(a as int).drop_first() =~= s@.skip(a + 1));
        }
        a += 1;
    }
    let ghost t = s@.skip(a as int);
    assert(trim_start(s@) == t);
    let mut b: usize = n;
    assert(t.take(n - a) =~= t);
    while b > a && is_whitespace(chars[b - 1])
        invariant
            a <= b <= n,
            n == chars.len(),
            chars@ == s@,
            t == s@.skip(a as int),
            trim_end(t) == trim_end(t.take(b - a)),
        decreases b,
    {
        proof {
            assert(t.take(b - a).drop_last() =~= t.take(b - a - 1));
        }
        b -= 1;
    }
    proof {
        assert(t.take(b - a) =~= s@.subrange(a as int, b as int));
        assert(t.take(n - a) =~= t);
    }
    s.substring_char(a, b).to_owned()
}

/// The lines of `text`, each without its line end and without the white
/// space around it.
pub fn trimmed_lines(text: &str) -> (lines: Vec<String>)
    ensures
        lines.deep_view() == text_lines(text@),
{
    let chars = to_chars(text);
    let n = chars.len();
    let mut lines: Vec<String> = Vec::new();
    let mut i: usize = 0;
    assert(text@.skip(0) =~= text@);
    assert(lines.deep_view() =~= Seq::<Seq<char>>::empty());
    while i < n
        invariant
            i <= n,
            n == chars.len(),
            chars@ == text@,
            text_lines(text@) == lines.deep_view() + text_lines(text@.skip(i as int)),
        decreases n - i,
    {
        let ghost rest = text@.skip(i as int);
        let start = i;
        proof {
            lemma_line_len_bound(rest);
        }
        while i < n && chars[i] != '\n'
            invariant
                start <= i <= n,
                n == chars.len(),
                chars@ == text@,
                rest == text@.skip(start as int),
                i - start <= line_len(rest),
                line_len(rest) <= rest.len(),
                line_len(rest) < rest.len() ==> rest[line_len(rest) as int] == '\n',
                forall|k: int| 0 <= k < line_len(rest) ==> #[trigger] rest[k] != '\n',
            decreases n - i,
        {
            proof {
                assert(rest[i - start] == text@[i as int]);
            }
            i += 1;
        }
        proof {
            if i < n {
                assert(rest[i - start] == text@[i as int]);
            }
            assert(i - start == line_len(rest));
            assert(rest.take(line_len(rest) as int) =~= text@.subrange(start as int, i as int));
            if i == n {
                assert(rest.take(line_len(rest) as int) =~= rest);
            }
        }
        let line = trim(text.substring_char(start, i));
        let ghost before = lines.deep_view();
        lines.push(line);
        if i < n {
            proof {
                assert(rest.skip(line_len(rest) as int + 1) =~= text@.skip(i + 1));
                assert(lines.deep_view() =~= before + seq![line@]);
            }
            i += 1;
        } else {
            proof {
                assert(text@.skip(n as int) =~= Seq::<char>::empty());
                assert(lines.deep_view() + text_lines(text@.skip(n as int)) =~= before + seq![
                    line@,
                ]);
            }
        }
    }
    proof {
        assert(text@.skip(n as int) =~= Seq::<char>::empty());
    }
    lines
}

/// The tokens of `s`: its maximal runs of characters that are no white space.
pub fn split_whitespace(s: &str) -> (words: Vec<String>)
    ensures
        words.deep_view() == tokens(s@),
{
    let chars = to_chars(s);
    let n = chars.len();
    let mut words: Vec<String> = Vec::new();
    let mut i: usize = 0;
    assert(s@.skip(0) =~= s@);
    assert(words.deep_view() =~= Seq::<Seq<char>>::empty());
    while i < n
        invariant
            i <= n,
            n == chars.len(),
            chars@ == s@,
            tokens(s@) == words.deep_view() + tokens(s@.skip(i as int)),
        decreases n - i,
    {
        let ghost rest = s@.skip(i as int);
        if is_whitespace(chars[i]) {
            proof {
                assert(rest.drop_first() =~= s@.skip(i + 1));
            }
            i += 1;
        } else {
            let start = i;
            proof {
                lemma_word_len_bound(rest);
            }
            while i < n && !is_whitespace(chars[i])
                invariant
                    start <= i <= n,
                    n == chars.len(),
                    chars@ == s@,
                    rest == s@.skip(start as int),
                    i - start <= word_len(rest),
                    word_len(rest) <= rest.len(),
                    word_len(rest) < rest.len() ==> white_space(rest[word_len(rest) as int]),
                    forall|k: int| 0 <= k < word_len(rest) ==> !white_space(#[trigger] rest[k]),
                decreases n - i,
            {
                proof {
                    assert(rest[i - start] == s@[i as int]);
                }
                i += 1;
            }
            proof {
                if i < n {
                    assert(rest[i - start] == s@[i as int]);
                }
                assert(i - start == word_len(rest));
                assert(rest.take(word_len(rest) as int) =~= s@.subrange(start as int, i as int));
                assert(rest.skip(word_len(rest) as int) =~= s@.skip(i as int));
            }
            let word = s.substring_char(start, i).to_owned();
            let ghost before = words.deep_view();
            words.push(word);
            proof {
                assert(words.deep_view() =~= before + seq![word@]);
            }
        }
    }
    proof {
        assert(s@.skip(n as int) =~= Seq::<char>::empty());
    }
    words
}

/// The tokens from position `from` on, joined by single spaces.
pub fn join_from(words: &Vec<String>, from: usize) -> (r: String)
    requires
        from <= words.len(),
    ensures
        r@ == joined(words.deep_view().skip(from as int)),
{
    let ghost all = words.deep_view();
    let mut r = String::new();
    let mut i: usize = from;
    assert(all.subrange(from as int, from as int) =~= Seq::<Seq<char>>::empty());
    while i < words.len()
        invariant
            from <= i <= words.len(),
            all == words.deep_view(),
            r@ == joined(all.subrange(from as int, i as int)),
        decreases words.len() - i,
    {
        let ghost upto = all.subrange(from as int, i + 1);
        proof {
            assert(upto.drop_last() =~= all.subrange(from as int, i as int));
            assert(upto.last() == words[i as int]@);
            reveal_strlit(" ");
            assert(" "@ =~= seq![' ']);
        }
        if i > from {
            r.append(" ");
        }
        r.append(words[i].as_str());
        i += 1;
    }
    proof {
        assert(all.subrange(from as int, words.len() as int) =~= all.skip(from as int));
    }
    r
}

/// The part of `s` before its first white-space character.
pub open spec fn leading_token(s: Seq<char>) -> Seq<char> {
    s.take(word_len(s) as int)
}

/// What follows the leading token of `s`, without the white space around it.
pub open spec fn remainder(s: Seq<char>) -> Seq<char> {
    trimmed(s.skip(word_len(s) as int))
}

/// Splits `s` at its first white-space character into the leading token and
/// the trimmed remainder.
pub fn split_leading(s: &str) -> (parts: (String, String))
    ensures
        parts.0@ == leading_token(s@),
        parts.1@ == remainder(s@),
{
    let chars = to_chars(s);
    let n = chars.len();
    let mut i: usize = 0;
    proof {
        lemma_word_len_bound(s@);
    }
    while i < n && !is_whitespace(chars[i])
        invariant
            i <= n,
            n == chars.len(),
            chars@ == s@,
            i <= word_len(s@) <= n,
            word_len(s@) < n ==> white_space(s@[word_len(s@) as int]),
            forall|k: int| 0 <= k < word_len(s@) ==> !white_space(#[trigger] s@[k]),
        decreases n - i,
    {
        i += 1;
    }
    assert(i == word_len(s@));
    let head = s.substring_char(0, i).to_owned();
    let tail = trim(s.substring_char(i, n));
    proof {
        assert(s@.subrange(0, i as int) =~= s@.take(i as int));
        assert(s@.subrange(i as int, n as int) =~= s@.skip(i as int));
    }
    (head, tail)
}

/// Whether `c` is one of the ten decimal digits.
pub open spec fn is_digit(c: char) -> bool {
    0x30 <= c as u32 <= 0x39
}

/// The number that the decimal digit `c` stands for.
pub open spec fn digit_value(c: char) -> nat {
    (c as u32 - 0x30) as nat
}

/// Whether `s` is made of decimal digits only.
pub open spec fn all_digits(s: Seq<char>) -> bool {
    forall|i: int| 0 <= i < s.len() ==> is_digit(#[trigger] s[i])
}

/// The number that the decimal digits `s` write, most significant first.
pub open spec fn digits_value(s: Seq<char>) -> nat
    decreases s.len(),
{
    if s.len() == 0 {
        0
    } else {
        digits_value(s.drop_last()) * 10 + digit_value(s.last())
    }
}

/// `s` without one leading plus sign.
pub open spec fn unsigned_part(s: Seq<char>) -> Seq<char> {
    if s.len() > 0 && s[0] == '+' {
        s.drop_first()
    } else {
        s
    }
}

/// The line number that the token `s` writes: an optional plus sign, then one
/// or more decimal digits whose value fits the machine word. `None` for any
/// other token.
pub open spec fn number_of(s: Seq<char>) -> Option<usize> {
    let d = unsigned_part(s);
    if d.len() > 0 && all_digits(d) && digits_value(d) <= usize::MAX {
        Some(digits_value(d) as usize)
    } else {
        None
    }
}

/// A longer run of digits writes no smaller number than any of its prefixes.
pub proof fn lemma_digits_value_grows(s: Seq<char>, k: int)
    requires
        0 <= k <= s.len(),
    ensures
        digits_value(s.take(k)) <= digits_value(s),
    decreases s.len() - k,
{
    if k == s.len() {
        assert(s.take(k) =~= s);
    } else {
        lemma_digits_value_grows(s.drop_last(), k);
        assert(s.drop_last().take(k) =~= s.take(k));
    }
}

/// Reads a line number from a token, as `number_of` defines it.
pub fn parse_number(token: &str) -> (r: Option<usize>)
    ensures
        r == number_of(token@),
{
    let chars = to_chars(token);
    let n = chars.len();
    let start: usize = if n > 0 && chars[0] == '+' {
        1
    } else {
        0
    };
    let ghost d = unsigned_part(token@);
    proof {
        assert(d =~= token@.skip(start as int));
    }
    if start == n {
        return None;
    }
    let mut acc: usize = 0;
    let mut i: usize = start;
    assert(d.take(0) =~= Seq::<char>::empty());
    while i < n
        invariant
            start <= i <= n,
            n == chars.len(),
            chars@ == token@,
            d == token@.skip(start as int),
            d == unsigned_part(token@),
            all_digits(d.take(i - start)),
            acc == digits_value(d.take(i - start)),
        decreases n - i,
    {
        let c = chars[i];
        let code: u32 = c as u32;
        let ghost upto = d.take(i - start + 1);
        proof {
            assert(upto.drop_last() =~= d.take(i - start));
            assert(d[i - start] == c);
            assert(upto.last() == c);
        }
        if code < 0x30 || code > 0x39 {
            assert(!is_digit(d[i - start]));
            assert(!all_digits(d));
            return None;
        }
        proof {
            assert forall|k: int| 0 <= k < upto.len() implies is_digit(#[trigger] upto[k]) by {
                if k < i - start {
                    assert(upto[k] == d.take(i - start)[k]);
                }
            }
        }
        let digit: usize = (code - 0x30) as usize;
        if acc > (usize::MAX - digit) / 10 {
            proof {
                assert(digits_value(upto) == acc * 10 + digit);
                assert(digits_value(upto) > usize::MAX);
                lemma_digits_value_grows(d, i - start + 1);
            }
            return None;
        }
        acc = acc * 10 + digit;
        i += 1;
    }
    proof {
        assert(d.take(n - start) =~= d);
    }
    Some(acc)
}

/// The character that writes the digit `d`.
pub open spec fn digit_char(d: nat) -> char {
    (0x30 + d) as char
}

/// The decimal digits that write `n`, most significant first, without
/// leading zeros.
pub open spec fn decimal(n: nat) -> Seq<char>
    decreases n,
{
    if n < 10 {
        seq![digit_char(n)]
    } else {
        decimal(n / 10).push(digit_char(n % 10))
    }
}

/// The text of one decimal digit.
fn digit_text(d: usize) -> (r: &'static str)
    requires
        d < 10,
    ensures
        r@ == seq![digit_char(d as nat)],
{
    proof {
        reveal_strlit("0");
        reveal_strlit("1");
        reveal_strlit("2");
        reveal_strlit("3");
        reveal_strlit("4");
        reveal_strlit("5");
        reveal_strlit("6");
        reveal_strlit("7");
        reveal_strlit("8");
        reveal_strlit("9");
    }
    let r = if d == 0 {
        "0"
    } else if d == 1 {
        "1"
    } else if d == 2 {
        "2"
    } else if d == 3 {
        "3"
    } else if d == 4 {
        "4"
    } else if d == 5 {
        "5"
    } else if d == 6 {
        "6"
    } else if d == 7 {
        "7"
    } else if d == 8 {
        "8"
    } else {
        "9"
    };
    assert(r@ =~= seq![digit_char(d as nat)]);
    r
}

/// The number `n` written in decimal digits.
pub fn decimal_text(n: usize) -> (r: String)
    ensures
        r@ == decimal(n as nat),
    decreases n,
{
    if n < 10 {
        String::from_str(digit_text(n))
    } else {
        let mut r = decimal_text(n / 10);
        r.append(digit_text(n % 10));
        assert(r@ =~= decimal(n as nat));
        r
    }
}

/// The decimal digits of a number are digits, and they write that number.
pub proof fn lemma_decimal_reads_back(n: nat)
    ensures
        decimal(n).len() > 0,
        all_digits(decimal(n)),
        digits_value(decimal(n)) == n,
        decimal(n)[0] != '+',
    decreases n,
{
    if n < 10 {
        let d = decimal(n);
        assert(d.drop_last() =~= Seq::<char>::empty());
        assert(digits_value(d.drop_last()) == 0);
        assert(d.last() == digit_char(n));
        assert(digit_value(digit_char(n)) == n);
    } else {
        lemma_decimal_reads_back(n / 10);
        let d = decimal(n);
        assert(d.drop_last() =~= decimal(n / 10));
        assert(d[0] == decimal(n / 10)[0]);
        assert(d.last() == digit_char(n % 10));
        assert(digit_value(digit_char(n % 10)) == n % 10);
        assert forall|i: int| 0 <= i < d.len() implies is_digit(#[trigger] d[i]) by {
            if i < d.len() - 1 {
                assert(d[i] == decimal(n / 10)[i]);
            }
        }
    }
}

/// Reading a line number back from its decimal digits gives the number.
pub proof fn lemma_number_of_decimal(n: usize)
    ensures
        number_of(decimal(n as nat)) == Some(n),
{
    lemma_decimal_reads_back(n as nat);
}

} // verus!
