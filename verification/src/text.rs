//! Plain text: decimal numerals, words, lines, substring search and number parsing.

use vstd::arithmetic::power::pow;
use vstd::prelude::*;
use vstd::slice::slice_subrange;

verus! {

/// The decimal digit `d` as a character.
pub open spec fn digit_char(d: nat) -> char {
    (48 + d) as char
}

/// The decimal numeral of `n`, without leading zeros.
pub open spec fn decimal(n: nat) -> Seq<char>
    decreases n,
{
    if n < 10 {
        seq![digit_char(n)]
    } else {
        decimal(n / 10).push(digit_char(n % 10))
    }
}

/// The value of `c` as a digit of base `radix` (at most 16), upper or lower case.
pub open spec fn digit_value(c: char, radix: nat) -> Option<nat> {
    let v = if '0' <= c && c <= '9' {
        (c as nat - 48) as nat
    } else if 'a' <= c && c <= 'f' {
        (c as nat - 87) as nat
    } else if 'A' <= c && c <= 'F' {
        (c as nat - 55) as nat
    } else {
        16
    };
    if v < radix {
        Some(v)
    } else {
        None
    }
}

pub open spec fn all_digits(s: Seq<char>, radix: nat) -> bool {
    forall|i: int| 0 <= i < s.len() ==> digit_value(#[trigger] s[i], radix) is Some
}

/// The number that a sequence of digits denotes, most significant digit first.
pub open spec fn magnitude(s: Seq<char>, radix: nat) -> nat
    decreases s.len(),
{
    if s.len() == 0 {
        0
    } else {
        magnitude(s.drop_last(), radix) * radix + digit_value(s.last(), radix)->0
    }
}

/// A leading plus sign, if there is one, taken off.
pub open spec fn unsigned_part(s: Seq<char>) -> Seq<char> {
    if s.len() > 0 && s[0] == '+' {
        s.skip(1)
    } else {
        s
    }
}

/// The unsigned number that `s` spells in base `radix`: an optional plus sign, then at least
/// one digit, with a value of at most `max`.
pub open spec fn number(s: Seq<char>, radix: nat, max: nat) -> Option<nat> {
    let t = unsigned_part(s);
    if t.len() > 0 && all_digits(t, radix) && magnitude(t, radix) <= max {
        Some(magnitude(t, radix))
    } else {
        None
    }
}

/// `pat` stands in `s` from position `i` on.
pub open spec fn occurs_at(s: Seq<char>, pat: Seq<char>, i: int) -> bool {
    0 <= i && i + pat.len() <= s.len() && s.subrange(i, i + pat.len()) == pat
}

/// `pat` stands somewhere in `s`.
pub open spec fn has_substring(s: Seq<char>, pat: Seq<char>) -> bool {
    exists|i: int| occurs_at(s, pat, i)
}

/// `s` with every leading repetition of the (non-empty) `pat` taken off.
pub open spec fn trim_start(s: Seq<char>, pat: Seq<char>) -> Seq<char>
    decreases s.len(),
{
    if pat.len() > 0 && occurs_at(s, pat, 0) {
        trim_start(s.skip(pat.len() as int), pat)
    } else {
        s
    }
}

/// The characters with the Unicode property `White_Space`.
pub open spec fn is_space(c: char) -> bool {
    let v = c as u32;
    ||| 0x9 <= v <= 0xd
    ||| v == 0x20
    ||| v == 0x85
    ||| v == 0xa0
    ||| v == 0x1680
    ||| 0x2000 <= v <= 0x200a
    ||| v == 0x2028
    ||| v == 0x2029
    ||| v == 0x202f
    ||| v == 0x205f
    ||| v == 0x3000
}

/// How many characters `s` has before its first white space.
pub open spec fn word_len(s: Seq<char>) -> nat
    decreases s.len(),
{
    if s.len() == 0 || is_space(s[0]) {
        0
    } else {
        1 + word_len(s.skip(1))
    }
}

/// The maximal runs of characters other than white space, in order.
pub open spec fn words(s: Seq<char>) -> Seq<Seq<char>>
    decreases s.len(),
{
    if s.len() == 0 {
        seq![]
    } else if is_space(s[0]) {
        words(s.skip(1))
    } else {
        proof {
            lemma_word_len(s);
        }
        seq![s.take(word_len(s) as int)] + words(s.skip(word_len(s) as int))
    }
}

/// How many characters `s` has before its first line feed.
pub open spec fn line_len(s: Seq<char>) -> nat
    decreases s.len(),
{
    if s.len() == 0 || s[0] == '\n' {
        0
    } else {
        1 + line_len(s.skip(1))
    }
}

/// A carriage return at the end taken off.
pub open spec fn without_return(s: Seq<char>) -> Seq<char> {
    if s.len() > 0 && s.last() == '\r' {
        s.drop_last()
    } else {
        s
    }
}

/// The lines of `s`. A line ends in a line feed, or a carriage return and a line feed, which
/// are not part of it; the last line may lack its ending.
pub open spec fn lines(s: Seq<char>) -> Seq<Seq<char>>
    decreases s.len(),
{
    if s.len() == 0 {
        seq![]
    } else if line_len(s) < s.len() {
        seq![without_return(s.take(line_len(s) as int))] + lines(s.skip(line_len(s) as int + 1))
    } else {
        seq![s]
    }
}

/// The first word ends before white space or at the end.
pub proof fn lemma_word_len(s: Seq<char>)
    ensures
        word_len(s) <= s.len(),
        forall|i: int| 0 <= i < word_len(s) ==> !is_space(#[trigger] s[i]),
        word_len(s) < s.len() ==> is_space(s[word_len(s) as int]),
    decreases s.len(),
{
    if s.len() > 0 && !is_space(s[0]) {
        lemma_word_len(s.skip(1));
        assert forall|i: int| 0 <= i < word_len(s) implies !is_space(#[trigger] s[i]) by {
            if i > 0 {
                assert(s[i] == s.skip(1)[i - 1]);
            }
        }
    }
}

/// The exact position of the first white space is the length of the first word.
pub(crate) proof fn lemma_word_len_is(s: Seq<char>, n: int)
    requires
        0 <= n <= s.len(),
        forall|i: int| 0 <= i < n ==> !is_space(#[trigger] s[i]),
        n < s.len() ==> is_space(s[n]),
    ensures
        word_len(s) == n,
{
    lemma_word_len(s);
    if word_len(s) < n {
        assert(!is_space(s[word_len(s) as int]));
    }
}

pub(crate) proof fn lemma_line_len(s: Seq<char>)
    ensures
        line_len(s) <= s.len(),
        forall|i: int| 0 <= i < line_len(s) ==> #[trigger] s[i] != '\n',
        line_len(s) < s.len() ==> s[line_len(s) as int] == '\n',
    decreases s.len(),
{
    if s.len() > 0 && s[0] != '\n' {
        lemma_line_len(s.skip(1));
        assert forall|i: int| 0 <= i < line_len(s) implies #[trigger] s[i] != '\n' by {
            if i > 0 {
                assert(s[i] == s.skip(1)[i - 1]);
            }
        }
    }
}

pub(crate) proof fn lemma_line_len_is(s: Seq<char>, n: int)
    requires
        0 <= n <= s.len(),
        forall|i: int| 0 <= i < n ==> #[trigger] s[i] != '\n',
        n < s.len() ==> s[n] == '\n',
    ensures
        line_len(s) == n,
{
    lemma_line_len(s);
    if line_len(s) < n {
        assert(s[line_len(s) as int] != '\n');
    }
}

/// The characters of a string, one by one.
pub fn chars_of(s: &str) -> (r: Vec<char>)
    ensures
        r@ == s@,
{
    let mut r: Vec<char> = Vec::new();
    for c in it: s.chars()
        invariant
            r@ == it.seq().take(it.index() as int),
            it.seq() == s@,
    {
        r.push(c);
    }
    r
}

/// The string made of one decimal digit.
fn digit_str(d: usize) -> (r: &'static str)
    requires
        d < 10,
    ensures
        r@ == seq![digit_char(d as nat)],
{
    proof {
        reveal_strlit("0");
        reveal_strlit("1");
        reveal_strlit("2");
        reveal_strlit("3");
        reveal_strlit("4");
        reveal_strlit("5");
        reveal_strlit("6");
        reveal_strlit("7");
        reveal_strlit("8");
        reveal_strlit("9");
    }
    if d == 0 {
        "0"
    } else if d == 1 {
        "1"
    } else if d == 2 {
        "2"
    } else if d == 3 {
        "3"
    } else if d == 4 {
        "4"
    } else if d == 5 {
        "5"
    } else if d == 6 {
        "6"
    } else if d == 7 {
        "7"
    } else if d == 8 {
        "8"
    } else {
        "9"
    }
}

/// Appends the decimal numeral of `n` to `out`.
pub fn append_decimal(out: &mut String, n: usize)
    ensures
        final(out)@ == old(out)@ + decimal(n as nat),
    decreases n,
{
    if n >= 10 {
        append_decimal(out, n / 10);
    }
    out.append(digit_str(n % 10));
}

/// Tells white space from other characters.
pub fn is_white_space(c: char) -> (r: bool)
    ensures
        r == is_space(c),
{
    let v = c as u32;
    (0x9 <= v && v <= 0xd) || v == 0x20 || v == 0x85 || v == 0xa0 || v == 0x1680 || (0x2000 <= v
        && v <= 0x200a) || v == 0x2028 || v == 0x2029 || v == 0x202f || v == 0x205f || v == 0x3000
}

/// The views of a list of strings.
pub open spec fn views(v: Seq<String>) -> Seq<Seq<char>> {
    v.map_values(|s: String| s@)
}

/// Splits a command line into its words at white space.
pub fn split_words(s: &str) -> (r: Vec<String>)
    ensures
        views(r@) == words(s@),
        r@.len() == words(s@).len(),
        forall|i: int| 0 <= i < r@.len() ==> (#[trigger] r@[i])@ == words(s@)[i],
{
    let chars = chars_of(s);
    let mut r: Vec<String> = Vec::new();
    let mut i: usize = 0;
    proof {
        assert(s@.skip(0) == s@);
    }
    while i < chars.len()
        invariant
            chars@ == s@,
            i <= chars.len(),
            views(r@) + words(s@.skip(i as int)) == words(s@),
        decreases chars.len() - i,
    {
        let ghost rest = s@.skip(i as int);
        if is_white_space(chars[i]) {
            proof {
                assert(rest.skip(1) == s@.skip(i + 1));
            }
            i += 1;
        } else {
            let start = i;
            let ghost before = views(r@);
            while i < chars.len() && !is_white_space(chars[i])
                invariant
                    chars@ == s@,
                    start <= i <= chars.len(),
                    forall|k: int| start <= k < i ==> !is_space(#[trigger] s@[k]),
                decreases chars.len() - i,
            {
                i += 1;
            }
            let word = s.substring_char(start, i).to_owned();
            proof {
                let n = i - start;
                assert forall|k: int| 0 <= k < n implies !is_space(#[trigger] rest[k]) by {
                    assert(rest[k] == s@[start + k]);
                }
                if n == 0 {
                    assert(rest[0] == s@[start as int]);
                }
                lemma_word_len_is(rest, n);
                assert(rest.take(n) == s@.subrange(start as int, i as int));
                assert(rest.skip(n) == s@.skip(i as int));
            }
            r.push(word);
            proof {
                assert(views(r@) == before.push(word@));
                assert(before.push(rest.take(i - start)) + words(rest.skip(i - start)) == before + (
                seq![rest.take(i - start)] + words(rest.skip(i - start))));
            }
        }
    }
    proof {
        assert(s@.skip(i as int) == Seq::<char>::empty());
        assert(views(r@) + words(s@.skip(i as int)) == views(r@));
        assert forall|k: int| 0 <= k < r@.len() implies (#[trigger] r@[k])@ == words(s@)[k] by {
            assert(views(r@)[k] == r@[k]@);
        }
    }
    r
}

/// Tells whether `pat` stands in `s` from position `i` on.
pub fn matches_at(s: &[char], pat: &[char], i: usize) -> (r: bool)
    ensures
        r == occurs_at(s@, pat@, i as int),
{
    if i > s.len() || pat.len() > s.len() - i {
        return false;
    }
    let mut k: usize = 0;
    while k < pat.len()
        invariant
            k <= pat.len(),
            i + pat.len() <= s.len(),
            forall|j: int| 0 <= j < k ==> s@[i + j] == #[trigger] pat@[j],
        decreases pat.len() - k,
    {
        if s[i + k] != pat[k] {
            proof {
                assert(s@.subrange(i as int, i + pat@.len())[k as int] != pat@[k as int]);
            }
            return false;
        }
        k += 1;
    }
    proof {
        assert(s@.subrange(i as int, i + pat@.len()) =~= pat@);
    }
    true
}

/// The first position at or after `from` where `pat` stands in `s`.
pub fn find_from(s: &[char], pat: &[char], from: usize) -> (r: Option<usize>)
    requires
        from <= s.len(),
    ensures
        match r {
            Some(i) => from <= i && occurs_at(s@, pat@, i as int) && forall|j: int|
                from <= j < i ==> !occurs_at(s@, pat@, j),
            None => forall|j: int| from <= j ==> !occurs_at(s@, pat@, j),
        },
{
    let mut i = from;
    while pat.len() <= s.len() - i
        invariant
            from <= i <= s.len(),
            forall|j: int| from <= j < i ==> !occurs_at(s@, pat@, j),
        decreases s.len() - i,
    {
        if matches_at(s, pat, i) {
            return Some(i);
        }
        if i == s.len() {
            return None;
        }
        i += 1;
    }
    None
}

/// Tells whether `pat` stands somewhere in `s`.
pub fn contains_text(s: &str, pat: &str) -> (r: bool)
    ensures
        r == has_substring(s@, pat@),
{
    let s = chars_of(s);
    let pat = chars_of(pat);
    match find_from(s.as_slice(), pat.as_slice(), 0) {
        Some(i) => {
            proof {
                assert(occurs_at(s@, pat@, i as int));
            }
            true
        },
        None => {
            proof {
                assert forall|j: int| !occurs_at(s@, pat@, j) by {
                    if 0 <= j {
                    }
                }
            }
            false
        },
    }
}

/// `s` without the leading repetitions of `pat`.
pub fn trim_start_of<'a>(s: &'a [char], pat: &[char]) -> (r: &'a [char])
    requires
        pat.len() > 0,
    ensures
        r@ == trim_start(s@, pat@),
{
    let mut i: usize = 0;
    proof {
        assert(s@.skip(0) == s@);
    }
    while matches_at(s, pat, i)
        invariant
            i <= s.len(),
            pat.len() > 0,
            trim_start(s@.skip(i as int), pat@) == trim_start(s@, pat@),
        decreases s.len() - i,
    {
        proof {
            let rest = s@.skip(i as int);
            assert(rest.subrange(0, pat@.len() as int) == s@.subrange(i as int, i + pat@.len()));
            assert(rest.skip(pat@.len() as int) == s@.skip(i + pat@.len()));
        }
        i += pat.len();
    }
    proof {
        let rest = s@.skip(i as int);
        if occurs_at(rest, pat@, 0) {
            assert(rest.subrange(0, pat@.len() as int) == s@.subrange(i as int, i + pat@.len()));
        }
    }
    slice_subrange(s, i, s.len())
}

/// The value of a digit in base `radix`.
fn digit_of(c: char, radix: usize) -> (r: Option<usize>)
    ensures
        match r {
            Some(v) => digit_value(c, radix as nat) == Some(v as nat),
            None => digit_value(c, radix as nat) is None,
        },
{
    let v: usize = if '0' <= c && c <= '9' {
        (c as u32 - 48) as usize
    } else if 'a' <= c && c <= 'f' {
        (c as u32 - 87) as usize
    } else if 'A' <= c && c <= 'F' {
        (c as u32 - 55) as usize
    } else {
        16
    };
    if v < radix {
        Some(v)
    } else {
        None
    }
}

/// More digits denote no smaller number.
pub(crate) proof fn lemma_magnitude_grows(s: Seq<char>, k: int, radix: nat)
    requires
        0 <= k <= s.len(),
        radix > 0,
    ensures
        magnitude(s.take(k), radix) <= magnitude(s, radix),
    decreases s.len(),
{
    if k == s.len() {
        assert(s.take(k) == s);
    } else {
        lemma_magnitude_grows(s.drop_last(), k, radix);
        assert(s.drop_last().take(k) == s.take(k));
        let m = magnitude(s.drop_last(), radix);
        assert(m <= m * radix) by (nonlinear_arith)
            requires
                radix > 0,
        ;
    }
}

/// Reads an unsigned number of at most `max` in base `radix`.
pub fn parse_number(s: &[char], radix: usize, max: usize) -> (r: Option<usize>)
    requires
        radix > 0,
    ensures
        match r {
            Some(v) => number(s@, radix as nat, max as nat) == Some(v as nat),
            None => number(s@, radix as nat, max as nat) is None,
        },
{
    let start: usize = if s.len() > 0 && s[0] == '+' {
        1
    } else {
        0
    };
    let ghost t = unsigned_part(s@);
    proof {
        assert(t == s@.skip(start as int));
    }
    if start == s.len() {
        return None;
    }
    let mut acc: usize = 0;
    let mut i = start;
    proof {
        assert(t.take(0) == Seq::<char>::empty());
    }
    while i < s.len()
        invariant
            start <= i <= s.len(),
            t == unsigned_part(s@),
            t == s@.skip(start as int),
            radix > 0,
            all_digits(t.take(i - start), radix as nat),
            acc == magnitude(t.take(i - start), radix as nat),
            acc <= max,
        decreases s.len() - i,
    {
        let ghost k = i - start;
        proof {
            assert(t[k] == s@[i as int]);
            assert(t.take(k + 1).drop_last() == t.take(k));
            assert(t.take(k + 1).last() == t[k]);
        }
        match digit_of(s[i], radix) {
            None => {
                return None;
            },
            Some(d) => {
                let ghost next = magnitude(t.take(k + 1), radix as nat);
                proof {
                    assert(next == acc * radix + d);
                    lemma_magnitude_grows(t, k + 1, radix as nat);
                    assert forall|j: int| 0 <= j < k + 1 implies digit_value(
                        #[trigger] t.take(k + 1)[j],
                        radix as nat,
                    ) is Some by {
                        if j < k {
                            assert(t.take(k + 1)[j] == t.take(k)[j]);
                        }
                    }
                }
                match acc.checked_mul(radix) {
                    None => {
                        return None;
                    },
                    Some(scaled) => match scaled.checked_add(d) {
                        None => {
                            return None;
                        },
                        Some(sum) => {
                            if sum > max {
                                return None;
                            }
                            acc = sum;
                        },
                    },
                }
            },
        }
        i += 1;
    }
    proof {
        assert(t.take(i - start) == t);
    }
    Some(acc)
}

/// The views of a list of character lists.
pub open spec fn char_views(v: Seq<Vec<char>>) -> Seq<Seq<char>> {
    v.map_values(|l: Vec<char>| l@)
}

/// Splits a text into its lines.
pub fn split_lines(s: &str) -> (r: Vec<Vec<char>>)
    ensures
        char_views(r@) == lines(s@),
        r@.len() == lines(s@).len(),
        forall|i: int| 0 <= i < r@.len() ==> (#[trigger] r@[i])@ == lines(s@)[i],
{
    let chars = chars_of(s);
    let mut r: Vec<Vec<char>> = Vec::new();
    let mut i: usize = 0;
    proof {
        assert(s@.skip(0) == s@);
    }
    while i < chars.len()
        invariant
            chars@ == s@,
            i <= chars.len(),
            char_views(r@) + lines(s@.skip(i as int)) == lines(s@),
        decreases chars.len() - i,
    {
        let ghost rest = s@.skip(i as int);
        let ghost before = char_views(r@);
        let ghost start = i;
        let mut line: Vec<char> = Vec::new();
        while i < chars.len() && chars[i] != '\n'
            invariant
                chars@ == s@,
                start <= i <= chars.len(),
                line@ == s@.subrange(start as int, i as int),
                forall|k: int| start <= k < i ==> #[trigger] s@[k] != '\n',
            decreases chars.len() - i,
        {
            line.push(chars[i]);
            i += 1;
            proof {
                assert(line@ == s@.subrange(start as int, i as int));
            }
        }
        proof {
            let n = i - start;
            assert forall|k: int| 0 <= k < n implies #[trigger] rest[k] != '\n' by {
                assert(rest[k] == s@[start + k]);
            }
            if n < rest.len() {
                assert(rest[n] == s@[i as int]);
            }
            lemma_line_len_is(rest, n);
            assert(rest.take(n) == line@);
            if n == rest.len() {
                assert(rest.take(n) == rest);
            } else {
                assert(rest.skip(n + 1) == s@.skip(i + 1));
            }
        }
        if i < chars.len() {
            if line.len() > 0 && line[line.len() - 1] == '\r' {
                line.pop();
            }
            i += 1;
        }
        let ghost tail = if i - start == rest.len() && line_len(rest) == rest.len() {
            Seq::<Seq<char>>::empty()
        } else {
            lines(s@.skip(i as int))
        };
        proof {
            assert(lines(rest) == seq![line@] + tail);
            assert(s@.skip(i as int).len() == 0 ==> lines(s@.skip(i as int)) == Seq::<Seq<char>>::empty());
        }
        let ghost line_view = line@;
        r.push(line);
        proof {
            assert(char_views(r@) == before.push(line_view));
            assert(before.push(line_view) + tail == before + (seq![line_view] + tail));
        }
    }
    proof {
        assert(s@.skip(i as int) == Seq::<char>::empty());
        assert(char_views(r@) + lines(s@.skip(i as int)) == char_views(r@));
        assert forall|k: int| 0 <= k < r@.len() implies (#[trigger] r@[k])@ == lines(s@)[k] by {
            assert(char_views(r@)[k] == r@[k]@);
        }
    }
    r
}

/// A numeral is made of digits, and denotes the number it was made from.
pub(crate) proof fn lemma_decimal_reads_back(n: nat)
    ensures
        decimal(n).len() > 0,
        all_digits(decimal(n), 10),
        forall|i: int| 0 <= i < decimal(n).len() ==> '0' <= #[trigger] decimal(n)[i] <= '9',
        magnitude(decimal(n), 10) == n,
    decreases n,
{
    if n < 10 {
        assert(decimal(n).drop_last() == Seq::<char>::empty());
        assert(magnitude(Seq::<char>::empty(), 10) == 0);
        assert(decimal(n).last() == digit_char(n));
    } else {
        lemma_decimal_reads_back(n / 10);
        assert(decimal(n).drop_last() == decimal(n / 10));
        assert(decimal(n).last() == digit_char(n % 10));
    }
}

/// Reading a decimal numeral gives the number back.
pub proof fn law_number_of_decimal(n: nat, max: nat)
    requires
        n <= max,
    ensures
        number(decimal(n), 10, max) == Some(n),
{
    lemma_decimal_reads_back(n);
    assert('0' <= decimal(n)[0] <= '9');
}

/// Different numbers have different numerals.
pub proof fn law_decimal_injective(a: nat, b: nat)
    requires
        decimal(a) == decimal(b),
    ensures
        a == b,
{
    lemma_decimal_reads_back(a);
    lemma_decimal_reads_back(b);
}

/// White space is: tab to carriage return, blank, next line, no-break space, the spaces of the
/// general punctuation block, and those of Ogham and of ideographs.
pub proof fn law_white_space(c: char)
    ensures
        is_space(c) <==> (9 <= c as u32 <= 13 || 0x2000 <= c as u32 <= 0x200a || seq![
            0x20u32,
            0x85,
            0xa0,
            0x1680,
            0x2028,
            0x2029,
            0x202f,
            0x205f,
            0x3000,
        ].contains(c as u32)),
{
    let others = seq![0x20u32, 0x85, 0xa0, 0x1680, 0x2028, 0x2029, 0x202f, 0x205f, 0x3000];
    assert(others[0] == 0x20 && others[1] == 0x85 && others[2] == 0xa0 && others[3] == 0x1680
        && others[4] == 0x2028 && others[5] == 0x2029 && others[6] == 0x202f && others[7] == 0x205f
        && others[8] == 0x3000);
}

/// The digits of a numeral, from the last one on: the one at position `i` counts the powers
/// `10^i`. A numeral is no longer than it has to be.
pub proof fn law_decimal_digits(n: nat, i: nat)
    requires
        i < decimal(n).len(),
    ensures
        decimal(n)[decimal(n).len() - 1 - i] as int == 48 + (n as int / pow(10, i)) % 10,
        n < pow(10, decimal(n).len()),
        n >= 10 ==> n >= pow(10, (decimal(n).len() - 1) as nat),
        n < 10 ==> decimal(n).len() == 1,
    decreases n,
{
    lemma_decimal_len(n);
    vstd::arithmetic::power::lemma_pow0(10);
    if n < 10 {
        assert(n as int / 1 == n);
    } else if i == 0 {
        assert(n as int / 1 == n);
    } else {
        law_decimal_digits(n / 10, (i - 1) as nat);
        let p = pow(10, (i - 1) as nat);
        vstd::arithmetic::power::lemma_pow_positive(10, (i - 1) as nat);
        assert(pow(10, i) == 10 * p) by {
            reveal(pow);
        }
        vstd::arithmetic::div_mod::lemma_div_denominator(n as int, 10, p);
        assert(decimal(n)[decimal(n).len() - 1 - i] == decimal(n / 10)[decimal(n / 10).len() - 1 - (
        i - 1)]);
    }
}

proof fn lemma_decimal_len(n: nat)
    ensures
        decimal(n).len() > 0,
        n < pow(10, decimal(n).len()),
        n >= 10 ==> n >= pow(10, (decimal(n).len() - 1) as nat),
        n < 10 ==> decimal(n).len() == 1,
    decreases n,
{
    if n < 10 {
        vstd::arithmetic::power::lemma_pow1(10);
    } else {
        let m = n / 10;
        lemma_decimal_len(m);
        let k = decimal(m).len();
        assert(decimal(n).len() == k + 1);
        assert(pow(10, k + 1) == 10 * pow(10, k)) by {
            reveal(pow);
        }
        if m < 10 {
            vstd::arithmetic::power::lemma_pow1(10);
        } else {
            assert(pow(10, k) == 10 * pow(10, (k - 1) as nat)) by {
                reveal(pow);
            }
        }
    }
}

/// What a character counts as a digit.
pub proof fn law_digit_value(c: char, radix: nat)
    requires
        radix <= 16,
    ensures
        '0' <= c <= '9' && c as nat - 48 < radix ==> digit_value(c, radix) == Some(
            (c as nat - 48) as nat,
        ),
        'a' <= c <= 'f' && c as nat - 87 < radix ==> digit_value(c, radix) == Some(
            (c as nat - 87) as nat,
        ),
        'A' <= c <= 'F' && c as nat - 55 < radix ==> digit_value(c, radix) == Some(
            (c as nat - 55) as nat,
        ),
        digit_value(c, radix) matches Some(v) ==> v < radix && ('0' <= c <= '9' || 'a' <= c <= 'f'
            || 'A' <= c <= 'F'),
{
}

/// A digit denotes its value, no digits denote zero, and digits put in front count for as many
/// powers of the base as digits follow.
pub proof fn law_magnitude_is_positional(a: Seq<char>, b: Seq<char>, c: char, radix: nat)
    requires
        digit_value(c, radix) is Some,
    ensures
        magnitude(seq![], radix) == 0,
        magnitude(seq![c], radix) == digit_value(c, radix)->0,
        magnitude(a + b, radix) == magnitude(a, radix) * pow(radix as int, b.len()) + magnitude(
            b,
            radix,
        ),
    decreases b.len(),
{
    assert(magnitude(seq![], radix) == 0);
    assert(seq![c].drop_last() =~= seq![]);
    assert(seq![c].last() == c);
    assert(magnitude(seq![c].drop_last(), radix) * radix == 0);
    if b.len() == 0 {
        vstd::arithmetic::power::lemma_pow0(radix as int);
        assert(a + b =~= a);
        assert(magnitude(b, radix) == 0);
    } else {
        let d = b.drop_last();
        law_magnitude_is_positional(a, d, c, radix);
        assert((a + b).drop_last() =~= a + d);
        assert((a + b).last() == b.last());
        let p = pow(radix as int, d.len());
        assert(pow(radix as int, b.len()) == radix * p) by {
            reveal(pow);
        }
        let m = magnitude(a, radix) as int;
        let k = magnitude(d, radix) as int;
        assert((m * p + k) * radix == m * (radix * p) + k * radix) by (nonlinear_arith);
    }
}

/// Text without a sign spells a number if it is made of digits, at least one of them, that denote
/// no more than the bound; and then it spells what they denote. One plus sign may stand in front.
pub proof fn law_number_is_what_digits_denote(s: Seq<char>, radix: nat, max: nat)
    requires
        s.len() == 0 || s[0] != '+',
    ensures
        number(s, radix, max) is Some <==> {
            &&& s.len() > 0
            &&& forall|i: int| 0 <= i < s.len() ==> digit_value(#[trigger] s[i], radix) is Some
            &&& magnitude(s, radix) <= max
        },
        number(s, radix, max) matches Some(v) ==> v == magnitude(s, radix),
        number(seq!['+'] + s, radix, max) == number(s, radix, max),
{
    assert((seq!['+'] + s).skip(1) =~= s);
}

/// Text that occurs at a position occurs there character by character.
pub proof fn law_occurrence_is_pointwise(s: Seq<char>, pat: Seq<char>, i: int)
    ensures
        occurs_at(s, pat, i) <==> 0 <= i && i + pat.len() <= s.len() && forall|k: int|
            0 <= k < pat.len() ==> s[i + k] == #[trigger] pat[k],
{
    if 0 <= i && i + pat.len() <= s.len() {
        let part = s.subrange(i, i + pat.len());
        if forall|k: int| 0 <= k < pat.len() ==> s[i + k] == #[trigger] pat[k] {
            assert(part =~= pat);
        }
        if part == pat {
            assert forall|k: int| 0 <= k < pat.len() implies s[i + k] == #[trigger] pat[k] by {
                assert(part[k] == s[i + k]);
            }
        }
    }
}

/// Text holds a pattern exactly if it can be cut into something, the pattern, and something.
pub proof fn law_substring_is_infix(s: Seq<char>, pat: Seq<char>)
    ensures
        has_substring(s, pat) <==> exists|before: Seq<char>, behind: Seq<char>|
            s == #[trigger] (before + pat + behind),
{
    if has_substring(s, pat) {
        let i = choose|i: int| occurs_at(s, pat, i);
        let before = s.take(i);
        let behind = s.skip(i + pat.len());
        assert(s.subrange(i, i + pat.len()) == pat);
        assert(s =~= s.take(i) + s.subrange(i, i + pat.len()) + s.skip(i + pat.len()));
        assert(s == before + pat + behind);
    }
    if exists|before: Seq<char>, behind: Seq<char>| s == #[trigger] (before + pat + behind) {
        let (before, behind) = choose|before: Seq<char>, behind: Seq<char>|
            s == #[trigger] (before + pat + behind);
        let i = before.len() as int;
        assert((before + pat + behind).subrange(i, i + pat.len()) =~= pat);
        assert(occurs_at(s, pat, i));
    }
}

/// Trimming takes a leading pattern off and goes on; text that does not start with the pattern
/// stays as it is.
pub proof fn law_trim_takes_all_leading(pat: Seq<char>, t: Seq<char>)
    requires
        pat.len() > 0,
    ensures
        trim_start(pat + t, pat) == trim_start(t, pat),
        !pat.is_prefix_of(t) ==> trim_start(t, pat) == t,
{
    let s = pat + t;
    let n = pat.len() as int;
    assert(s.subrange(0, n) =~= pat);
    assert(s.skip(n) =~= t);
    if occurs_at(t, pat, 0) {
        assert(pat =~= t.subrange(0, n));
    }
}

/// A word that stands alone is the only one; nothing holds no words; and white space splits: the
/// words of a text are those before any white space in it, then those behind it.
pub proof fn law_words_split_at_white_space(a: Seq<char>, c: char, b: Seq<char>)
    requires
        is_space(c),
    ensures
        words(seq![]) == Seq::<Seq<char>>::empty(),
        a.len() > 0 && (forall|i: int| 0 <= i < a.len() ==> !is_space(#[trigger] a[i])) ==> words(a)
            == seq![a],
        words(a + seq![c] + b) == words(a) + words(b),
    decreases a.len(),
{
    let s = a + seq![c] + b;
    assert(words(seq![]) =~= Seq::<Seq<char>>::empty());
    if a.len() > 0 && (forall|i: int| 0 <= i < a.len() ==> !is_space(#[trigger] a[i])) {
        let n = a.len() as int;
        lemma_word_len_is(a, n);
        assert(a.take(n) =~= a);
        assert(a.skip(n) =~= seq![]);
        assert(words(a) =~= seq![a]);
    }
    if a.len() == 0 {
        assert(s[0] == c);
        assert(s.skip(1) =~= b);
        assert(a =~= seq![]);
        assert(words(a) + words(b) =~= words(b));
    } else if is_space(a[0]) {
        law_words_split_at_white_space(a.skip(1), c, b);
        assert(s[0] == a[0]);
        assert(s.skip(1) =~= a.skip(1) + seq![c] + b);
    } else {
        let n = word_len(a) as int;
        lemma_word_len(a);
        law_words_split_at_white_space(a.skip(n), c, b);
        assert forall|i: int| 0 <= i < n implies !is_space(#[trigger] s[i]) by {
            assert(s[i] == a[i]);
        }
        assert(s[n] == if n < a.len() {
            a[n]
        } else {
            c
        });
        lemma_word_len_is(s, n);
        assert(s[0] == a[0]);
        assert(s.take(n) =~= a.take(n));
        assert(s.skip(n) =~= a.skip(n) + seq![c] + b);
        assert(words(s) =~= seq![a.take(n)] + (words(a.skip(n)) + words(b)));
        assert(words(a) + words(b) =~= seq![a.take(n)] + (words(a.skip(n)) + words(b)));
    }
}

/// Splitting into words loses nothing but white space: put together, the words are the text
/// without its white space; and no word is empty or holds white space.
pub proof fn law_words_lose_only_white_space(s: Seq<char>)
    ensures
        words(s).flatten() == s.filter(|c: char| !is_space(c)),
        forall|i: int| 0 <= i < words(s).len() ==> (#[trigger] words(s)[i]).len() > 0,
        forall|i: int, k: int|
            0 <= i < words(s).len() && 0 <= k < words(s)[i].len() ==> !is_space(
                #[trigger] words(s)[i][k],
            ),
    decreases s.len(),
{
    let keep = |c: char| !is_space(c);
    reveal(Seq::filter);
    if s.len() == 0 {
        assert(s.filter(keep) =~= seq![]);
        assert(words(s).flatten() =~= seq![]);
    } else if is_space(s[0]) {
        law_words_lose_only_white_space(s.skip(1));
        assert(s =~= seq![s[0]] + s.skip(1));
        Seq::filter_distributes_over_add(seq![s[0]], s.skip(1), keep);
        lemma_filter_one(s[0], keep);
        assert(s.filter(keep) =~= s.skip(1).filter(keep));
    } else {
        let n = word_len(s) as int;
        let word = s.take(n);
        let rest = s.skip(n);
        lemma_word_len(s);
        law_words_lose_only_white_space(rest);
        assert(s =~= word + rest);
        Seq::filter_distributes_over_add(word, rest, keep);
        assert forall|k: int| 0 <= k < word.len() implies keep(#[trigger] word[k]) by {
            assert(word[k] == s[k]);
        }
        lemma_filter_all(word, keep);
        assert(words(s).first() == word);
        assert(words(s).drop_first() =~= words(rest));
        assert(words(s).flatten() =~= word + words(rest).flatten());
        assert forall|i: int| 0 <= i < words(s).len() implies (#[trigger] words(s)[i]).len() > 0 by {
            if i > 0 {
                assert(words(s)[i] == words(rest)[i - 1]);
            }
        }
        assert forall|i: int, k: int|
            0 <= i < words(s).len() && 0 <= k < words(s)[i].len() implies !is_space(
            #[trigger] words(s)[i][k],
        ) by {
            if i > 0 {
                assert(words(s)[i] == words(rest)[i - 1]);
                assert(!is_space(words(rest)[i - 1][k]));
            } else {
                assert(keep(word[k]));
            }
        }
    }
}

proof fn lemma_filter_one(c: char, keep: spec_fn(char) -> bool)
    requires
        !keep(c),
    ensures
        seq![c].filter(keep) == Seq::<char>::empty(),
{
    reveal(Seq::filter);
    assert(seq![c].drop_last() =~= Seq::<char>::empty());
    assert(Seq::<char>::empty().filter(keep) =~= Seq::<char>::empty());
}

proof fn lemma_filter_all(s: Seq<char>, keep: spec_fn(char) -> bool)
    requires
        forall|k: int| 0 <= k < s.len() ==> keep(#[trigger] s[k]),
    ensures
        s.filter(keep) == s,
    decreases s.len(),
{
    reveal(Seq::filter);
    if s.len() > 0 {
        lemma_filter_all(s.drop_last(), keep);
        assert(s.drop_last().push(s.last()) =~= s);
    } else {
        assert(s.filter(keep) =~= s);
    }
}

/// Words put one behind the other, with one blank between each two.
pub open spec fn joined(w: Seq<Seq<char>>) -> Seq<char>
    decreases w.len(),
{
    if w.len() == 0 {
        seq![]
    } else if w.len() == 1 {
        w[0]
    } else {
        w[0] + seq![' '] + joined(w.skip(1))
    }
}

/// Words that were joined by blanks split back into the same words.
pub proof fn law_joined_words_split_back(w: Seq<Seq<char>>)
    requires
        forall|i: int| 0 <= i < w.len() ==> (#[trigger] w[i]).len() > 0,
        forall|i: int, k: int|
            0 <= i < w.len() && 0 <= k < w[i].len() ==> !is_space(#[trigger] w[i][k]),
    ensures
        words(joined(w)) == w,
    decreases w.len(),
{
    if w.len() == 0 {
        law_words_split_at_white_space(seq![], ' ', seq![]);
        assert(w =~= seq![]);
    } else {
        assert forall|k: int| 0 <= k < w[0].len() implies !is_space(#[trigger] w[0][k]) by {
        }
        if w.len() == 1 {
            law_words_split_at_white_space(w[0], ' ', seq![]);
            assert(w =~= seq![w[0]]);
        } else {
            let rest = w.skip(1);
            assert forall|i: int| 0 <= i < rest.len() implies (#[trigger] rest[i]).len() > 0 by {
                assert(rest[i] == w[i + 1]);
            }
            assert forall|i: int, k: int|
                0 <= i < rest.len() && 0 <= k < rest[i].len() implies !is_space(
                #[trigger] rest[i][k],
            ) by {
                assert(rest[i][k] == w[i + 1][k]);
            }
            law_joined_words_split_back(rest);
            law_words_split_at_white_space(w[0], ' ', joined(rest));
            assert(w =~= seq![w[0]] + rest);
        }
    }
}

/// Text up to a line feed is a line, without a carriage return at its end; the lines of what
/// follows come behind. Text without a line feed is one line, as it stands; nothing is no line.
pub proof fn law_lines_split_at_line_feeds(l: Seq<char>, rest: Seq<char>)
    requires
        !l.contains('\n'),
    ensures
        l.len() == 0 || l.last() != '\r' ==> lines(l + seq!['\n'] + rest) == seq![l] + lines(rest),
        l.len() > 0 && l.last() == '\r' ==> lines(l + seq!['\n'] + rest) == seq![l.drop_last()]
            + lines(rest),
        l.len() > 0 ==> lines(l) == seq![l],
        lines(seq![]) == Seq::<Seq<char>>::empty(),
{
    let s = l + seq!['\n'] + rest;
    let n = l.len() as int;
    assert forall|i: int| 0 <= i < n implies #[trigger] s[i] != '\n' by {
        assert(s[i] == l[i]);
    }
    assert(s[n] == '\n');
    lemma_line_len_is(s, n);
    assert(s.take(n) =~= l);
    assert(s.skip(n + 1) =~= rest);
    assert forall|i: int| 0 <= i < n implies #[trigger] l[i] != '\n' by {
    }
    lemma_line_len_is(l, n);
}

} // verus!
