//! The small texts that the kernel keeps for its sensors.

use vstd::prelude::*;

verus! {

/// Whether a character has the Unicode property `White_Space`.
pub open spec fn white_space(c: char) -> bool {
    let u = c as u32;
    ||| 0x09 <= u <= 0x0d
    ||| u == 0x20
    ||| u == 0x85
    ||| u == 0xa0
    ||| u == 0x1680
    ||| 0x2000 <= u <= 0x200a
    ||| 0x2028 <= u <= 0x2029
    ||| u == 0x202f
    ||| u == 0x205f
    ||| u == 0x3000
}

/// `s` without the white space that it starts with.
pub open spec fn trimmed_start(s: Seq<char>) -> Seq<char>
    decreases s.len(),
{
    if s.len() > 0 && white_space(s[0]) {
        trimmed_start(s.subrange(1, s.len() as int))
    } else {
        s
    }
}

/// `s` without the white space that it ends with.
pub open spec fn trimmed_end(s: Seq<char>) -> Seq<char>
    decreases s.len(),
{
    if s.len() > 0 && white_space(s[s.len() - 1]) {
        trimmed_end(s.subrange(0, s.len() - 1))
    } else {
        s
    }
}

/// `s` without the white space around it.
pub open spec fn trimmed(s: Seq<char>) -> Seq<char> {
    trimmed_end(trimmed_start(s))
}

/// Whether a character is one of the ten decimal digits.
pub open spec fn is_digit(c: char) -> bool {
    0x30 <= c as u32 <= 0x39
}

/// The number that a row of decimal digits writes down.
pub open spec fn digits_value(s: Seq<char>) -> int
    decreases s.len(),
{
    if s.len() == 0 {
        0
    } else {
        10 * digits_value(s.subrange(0, s.len() - 1)) + (s[s.len() - 1] as u32 - 0x30)
    }
}

/// Whether the text starts with a plus or minus sign.
pub open spec fn has_sign(s: Seq<char>) -> bool {
    s.len() > 0 && (s[0] == '+' || s[0] == '-')
}

/// The text behind the sign, where there is one.
pub open spec fn unsigned_part(s: Seq<char>) -> Seq<char> {
    if has_sign(s) {
        s.subrange(1, s.len() as int)
    } else {
        s
    }
}

/// The decimal number in `s`: an optional sign, then digits only.
pub open spec fn decimal(s: Seq<char>) -> Option<int> {
    let digits = unsigned_part(s);
    if digits.len() == 0 || exists|i: int| 0 <= i < digits.len() && !is_digit(#[trigger] digits[i]) {
        None
    } else if has_sign(s) && s[0] == '-' {
        Some(-digits_value(digits))
    } else {
        Some(digits_value(digits))
    }
}

/// The 32-bit number in `s`, where it holds one and nothing else.
pub open spec fn decimal_i32(s: Seq<char>) -> Option<int> {
    match decimal(s) {
        Some(v) if i32::MIN <= v <= i32::MAX => Some(v),
        _ => None,
    }
}

/// Whether `c` is white space.
pub fn is_white_space(c: char) -> (answer: bool)
    ensures
        answer == white_space(c),
{
    let u: u32 = c as u32;
    (0x09 <= u && u <= 0x0d) || u == 0x20 || u == 0x85 || u == 0xa0 || u == 0x1680 || (0x2000 <= u
        && u <= 0x200a) || u == 0x2028 || u == 0x2029 || u == 0x202f || u == 0x205f || u == 0x3000
}

/// The characters of `text` without the white space around them.
pub fn trim(text: &str) -> (chars: Vec<char>)
    ensures
        chars@ == trimmed(text@),
{
    let mut chars: Vec<char> = Vec::new();
    let mut started: bool = false;
    let ghost whole = text@;
    assert(whole.subrange(0, whole.len() as int) =~= whole);
    for c in it: text.chars()
        invariant
            whole == it.seq(),
            started ==> chars@ + whole.subrange(it.index() as int, whole.len() as int)
                == trimmed_start(whole),
            !started ==> chars@.len() == 0 && trimmed_start(
                whole.subrange(it.index() as int, whole.len() as int),
            ) == trimmed_start(whole),
    {
        if started || !is_white_space(c) {
            proof {
                let i = it.index() as int;
                let rest = whole.subrange(i, whole.len() as int);
                let next = whole.subrange(i + 1, whole.len() as int);
                assert(chars@.push(c) + next =~= chars@ + rest);
                if !started {
                    assert(chars@ + rest =~= rest);
                }
            }
            started = true;
            chars.push(c);
        } else {
            proof {
                let i = it.index() as int;
                let rest = whole.subrange(i, whole.len() as int);
                assert(rest.subrange(1, rest.len() as int) =~= whole.subrange(
                    i + 1,
                    whole.len() as int,
                ));
            }
        }
    }
    assert(chars@ =~= trimmed_start(whole));
    while chars.len() > 0 && is_white_space(chars[chars.len() - 1])
        invariant
            trimmed_end(chars@) == trimmed(whole),
        decreases chars.len(),
    {
        let ghost before = chars@;
        let _ = chars.pop();
        assert(chars@ =~= before.subrange(0, before.len() - 1));
    }
    chars
}

/// A digit more makes a number no smaller.
proof fn lemma_digits_value_grows(s: Seq<char>, n: int)
    requires
        0 <= n <= s.len(),
        forall|i: int| 0 <= i < s.len() ==> is_digit(#[trigger] s[i]),
    ensures
        0 <= digits_value(s.subrange(0, n)) <= digits_value(s),
    decreases s.len(),
{
    if n == s.len() {
        assert(s.subrange(0, n) =~= s);
        if n > 0 {
            let t = s.subrange(0, n - 1);
            lemma_digits_value_grows(t, n - 1);
            assert(t.subrange(0, n - 1) =~= t);
        }
    } else {
        let t = s.subrange(0, s.len() - 1);
        lemma_digits_value_grows(t, n);
        assert(t.subrange(0, n) =~= s.subrange(0, n));
        assert(is_digit(s[s.len() - 1]));
    }
}

/// Reads a 32-bit decimal number: an optional sign, then digits only.
pub fn parse_i32(chars: &Vec<char>) -> (number: Option<i32>)
    ensures
        match number {
            Some(v) => decimal_i32(chars@) == Some(v as int),
            None => decimal_i32(chars@) is None,
        },
{
    let n: usize = chars.len();
    let signed: bool = n > 0 && (chars[0] == '+' || chars[0] == '-');
    let minus: bool = n > 0 && chars[0] == '-';
    let start: usize = if signed {
        1
    } else {
        0
    };
    let ghost digits = unsigned_part(chars@);
    assert(digits =~= chars@.subrange(start as int, n as int));
    if start == n {
        return None;
    }
    let mut value: i64 = 0;
    let mut i: usize = start;
    let mut large: bool = false;
    assert(digits.subrange(0, 0).len() == 0);
    while i < n
        invariant
            start <= i <= n,
            n == chars@.len(),
            digits == unsigned_part(chars@),
            digits == chars@.subrange(start as int, n as int),
            forall|j: int| 0 <= j < i - start ==> is_digit(#[trigger] digits[j]),
            0 <= value <= 0x8000_0000,
            !large ==> value == digits_value(digits.subrange(0, i - start)),
            large ==> exists|k: int|
                0 <= k <= i - start && #[trigger] digits_value(digits.subrange(0, k))
                    > 0x8000_0000,
        decreases n - i,
    {
        let c: u32 = chars[i] as u32;
        assert(digits[i - start] == chars@[i as int]);
        if c < 0x30 || c > 0x39 {
            assert(!is_digit(digits[i - start]));
            return None;
        }
        proof {
            let longer = digits.subrange(0, i - start + 1);
            assert(longer.subrange(0, i - start) =~= digits.subrange(0, i - start));
        }
        if !large {
            let next: i64 = value * 10 + (c - 0x30) as i64;
            assert(next == digits_value(digits.subrange(0, i - start + 1)));
            if next > 0x8000_0000 {
                large = true;
            } else {
                value = next;
            }
        }
        i = i + 1;
    }
    assert(digits.subrange(0, n - start) =~= digits);
    if large {
        proof {
            let k = choose|k: int|
                0 <= k <= n - start && #[trigger] digits_value(digits.subrange(0, k)) > 0x8000_0000;
            lemma_digits_value_grows(digits, k);
        }
        return None;
    }
    if minus {
        Some((-value) as i32)
    } else if value == 0x8000_0000 {
        None
    } else {
        Some(value as i32)
    }
}

/// Whether the characters spell `word`.
pub fn spells(chars: &Vec<char>, word: &str) -> (answer: bool)
    ensures
        answer == (chars@ == word@),
{
    let n: usize = word.unicode_len();
    if chars.len() != n {
        return false;
    }
    let mut i: usize = 0;
    while i < n
        invariant
            i <= n,
            n == chars@.len(),
            n == word@.len(),
            forall|j: int| 0 <= j < i ==> chars@[j] == word@[j],
        decreases n - i,
    {
        if chars[i] != word.get_char(i) {
            return false;
        }
        i = i + 1;
    }
    assert(chars@ =~= word@);
    true
}

/// White space in front does not show.
proof fn lemma_trimmed_start(before: Seq<char>, core: Seq<char>)
    requires
        forall|i: int| 0 <= i < before.len() ==> white_space(#[trigger] before[i]),
        core.len() > 0 ==> !white_space(core[0]),
    ensures
        trimmed_start(before + core) == core,
    decreases before.len(),
{
    let all = before + core;
    if before.len() == 0 {
        assert(all =~= core);
    } else {
        let rest = before.subrange(1, before.len() as int);
        assert(all[0] == before[0]);
        assert(all.subrange(1, all.len() as int) =~= rest + core);
        lemma_trimmed_start(rest, core);
    }
}

/// White space behind does not show.
proof fn lemma_trimmed_end(core: Seq<char>, behind: Seq<char>)
    requires
        forall|i: int| 0 <= i < behind.len() ==> white_space(#[trigger] behind[i]),
        core.len() > 0 ==> !white_space(core[core.len() - 1]),
    ensures
        trimmed_end(core + behind) == core,
    decreases behind.len(),
{
    let all = core + behind;
    if behind.len() == 0 {
        assert(all =~= core);
    } else {
        let rest = behind.subrange(0, behind.len() - 1);
        assert(all[all.len() - 1] == behind[behind.len() - 1]);
        assert(all.subrange(0, all.len() - 1) =~= core + rest);
        lemma_trimmed_end(core, rest);
    }
}

/// White space around a text is of no account.
pub proof fn law_white_space_ignored(before: Seq<char>, core: Seq<char>, behind: Seq<char>)
    requires
        core.len() > 0,
        !white_space(core[0]),
        !white_space(core[core.len() - 1]),
        forall|i: int| 0 <= i < before.len() ==> white_space(#[trigger] before[i]),
        forall|i: int| 0 <= i < behind.len() ==> white_space(#[trigger] behind[i]),
    ensures
        trimmed(before + core + behind) == core,
{
    assert(before + core + behind =~= before + (core + behind));
    lemma_trimmed_start(before, core + behind);
    lemma_trimmed_end(core, behind);
}

/// Of a text that is nothing but white space nothing is left.
pub proof fn law_blank_text(s: Seq<char>)
    requires
        forall|i: int| 0 <= i < s.len() ==> white_space(#[trigger] s[i]),
    ensures
        trimmed(s).len() == 0,
{
    lemma_trimmed_start(s, Seq::empty());
    assert(s + Seq::<char>::empty() =~= s);
}

/// A single digit writes down its own value.
pub proof fn law_one_digit(c: char)
    requires
        0x30 <= c as u32 <= 0x39,
    ensures
        decimal(seq![c]) == Some(c as u32 - 0x30),
{
    let s = seq![c];
    assert(s.subrange(0, 0).len() == 0);
    assert(digits_value(s.subrange(0, 0)) == 0);
    assert(digits_value(s) == 10 * digits_value(s.subrange(0, 0)) + (c as u32 - 0x30));
}

/// A digit written behind a number makes it ten times as large and adds the digit, away from
/// zero.
pub proof fn law_digit_behind(s: Seq<char>, c: char)
    requires
        0x30 <= c as u32 <= 0x39,
        decimal(s) is Some,
    ensures
        s[0] == '-' ==> decimal(s.push(c)) == Some(10 * decimal(s)->0 - (c as u32 - 0x30)),
        s[0] != '-' ==> decimal(s.push(c)) == Some(10 * decimal(s)->0 + (c as u32 - 0x30)),
{
    let digits = unsigned_part(s);
    let more = unsigned_part(s.push(c));
    assert(more =~= digits.push(c));
    assert(more.subrange(0, more.len() - 1) =~= digits);
    assert forall|i: int| 0 <= i < more.len() implies is_digit(#[trigger] more[i]) by {
        if i < digits.len() {
            assert(more[i] == digits[i]);
        }
    }
}

/// A sign in front of digits makes the number negative or leaves it as it is.
pub proof fn law_sign_in_front(digits: Seq<char>)
    requires
        digits.len() > 0,
        digits[0] != '+' && digits[0] != '-',
        decimal(digits) is Some,
    ensures
        decimal(seq!['-'] + digits) == Some(-(decimal(digits)->0)),
        decimal(seq!['+'] + digits) == decimal(digits),
        decimal(digits)->0 >= 0,
{
    assert(unsigned_part(digits) == digits);
    assert(unsigned_part(seq!['-'] + digits) =~= digits);
    assert(unsigned_part(seq!['+'] + digits) =~= digits);
    lemma_digits_value_grows(digits, digits.len() as int);
    assert(digits.subrange(0, digits.len() as int) =~= digits);
}

/// Nothing else is a number: not a text without digits, and not one with anything but digits
/// behind a sign in its first place.
pub proof fn law_other_text_refused(s: Seq<char>, i: int)
    ensures
        s.len() == 0 ==> decimal(s) is None,
        s.len() == 1 && (s[0] == '+' || s[0] == '-') ==> decimal(s) is None,
        0 <= i < s.len() && !(0x30 <= s[i] as u32 <= 0x39) && !(i == 0 && (s[0] == '+' || s[0]
            == '-')) ==> decimal(s) is None,
{
    if 0 <= i < s.len() && !(0x30 <= s[i] as u32 <= 0x39) && !(i == 0 && (s[0] == '+' || s[0]
        == '-')) {
        let digits = unsigned_part(s);
        if has_sign(s) {
            assert(!is_digit(digits[i - 1]));
        } else {
            assert(!is_digit(digits[i]));
        }
    }
}

/// A number counts exactly where it has no more than 32 bits with its sign.
pub proof fn law_32_bits(s: Seq<char>, v: int)
    ensures
        decimal_i32(s) == Some(v) <==> decimal(s) == Some(v) && -0x8000_0000 <= v <= 0x7fff_ffff,
        decimal_i32(s) is None <==> (decimal(s) matches Some(w) ==> w < -0x8000_0000 || w
            > 0x7fff_ffff),
{
}

}
