//! Lines that a user types.

use vstd::prelude::*;
use crate::text::{
    chars_of, decimal, digit_char, hex_char, hexadecimal, string_of, two_digits,
};

verus! {

/// Whether a character has the Unicode property `White_Space`.
pub open spec fn is_white(c: char) -> bool {
    let n = c as u32;
    ||| 0x09 <= n <= 0x0D
    ||| n == 0x20
    ||| n == 0x85
    ||| n == 0xA0
    ||| n == 0x1680
    ||| 0x2000 <= n <= 0x200A
    ||| n == 0x2028
    ||| n == 0x2029
    ||| n == 0x202F
    ||| n == 0x205F
    ||| n == 0x3000
}

fn white(c: char) -> (r: bool)
    ensures
        r == is_white(c),
{
    let n: u32 = c as u32;
    (n >= 0x09 && n <= 0x0D) || n == 0x20 || n == 0x85 || n == 0xA0 || n == 0x1680 || (n >= 0x2000
        && n <= 0x200A) || n == 0x2028 || n == 0x2029 || n == 0x202F || n == 0x205F || n == 0x3000
}

/// A text without the white space in front of it.
pub open spec fn trim_start(s: Seq<char>) -> Seq<char>
    decreases s.len(),
{
    if s.len() > 0 && is_white(s[0]) {
        trim_start(s.skip(1))
    } else {
        s
    }
}

/// A text without the white space behind it.
pub open spec fn trim_end(s: Seq<char>) -> Seq<char>
    decreases s.len(),
{
    if s.len() > 0 && is_white(s.last()) {
        trim_end(s.drop_last())
    } else {
        s
    }
}

/// A text without the white space around it.
pub open spec fn trimmed(s: Seq<char>) -> Seq<char> {
    trim_end(trim_start(s))
}

/// The part of a text without the white space around it.
pub(crate) fn trim(chars: &Vec<char>, from: usize, to: usize) -> (r: (usize, usize))
    requires
        from <= to <= chars@.len(),
    ensures
        from <= r.0 <= r.1 <= to,
        chars@.subrange(r.0 as int, r.1 as int) == trimmed(
            chars@.subrange(from as int, to as int),
        ),
{
    let ghost s = chars@.subrange(from as int, to as int);
    let mut a: usize = from;
    while a < to && white(chars[a])
        invariant
            from <= a <= to <= chars@.len(),
            trim_start(chars@.subrange(a as int, to as int)) == trim_start(s),
        decreases to - a,
    {
        proof {
            let t = chars@.subrange(a as int, to as int);
            assert(t[0] == chars@[a as int]);
            assert(t.skip(1) =~= chars@.subrange(a + 1, to as int));
        }
        a = a + 1;
    }
    let ghost t = chars@.subrange(a as int, to as int);
    assert(trim_start(t) == t) by {
        if a < to {
            assert(t[0] == chars@[a as int]);
        }
    }
    let mut b: usize = to;
    while b > a && white(chars[b - 1])
        invariant
            from <= a <= b <= to <= chars@.len(),
            trim_end(chars@.subrange(a as int, b as int)) == trim_end(t),
        decreases b - a,
    {
        proof {
            let u = chars@.subrange(a as int, b as int);
            assert(u.last() == chars@[b - 1]);
            assert(u.drop_last() =~= chars@.subrange(a as int, b - 1));
        }
        b = b - 1;
    }
    assert(trim_end(chars@.subrange(a as int, b as int)) == chars@.subrange(a as int, b as int)) by {
        if b > a {
            assert(chars@.subrange(a as int, b as int).last() == chars@[b - 1]);
        }
    }
    (a, b)
}

/// The value of a decimal digit.
pub open spec fn digit_value(c: char) -> nat {
    (c as u32 - 0x30) as nat
}

/// Whether a character is a decimal digit.
pub open spec fn is_digit(c: char) -> bool {
    0x30 <= c as u32 <= 0x39
}

/// The number that decimal digits stand for.
pub open spec fn digits_value(s: Seq<char>) -> nat
    decreases s.len(),
{
    if s.len() == 0 {
        0
    } else {
        digits_value(s.drop_last()) * 10 + digit_value(s.last())
    }
}

/// Every character is a decimal digit.
pub open spec fn all_digits(d: Seq<char>) -> bool {
    forall|i: int| 0 <= i < d.len() ==> is_digit(#[trigger] d[i])
}

/// The number that decimal digits stand for: at least one, and not too large.
pub open spec fn digits_number(d: Seq<char>) -> Option<u64> {
    if d.len() == 0 || !all_digits(d) || digits_value(d) > u64::MAX {
        None
    } else {
        Some(digits_value(d) as u64)
    }
}

/// The number that a text stands for: decimal digits, perhaps behind a plus sign.
pub open spec fn number_of(s: Seq<char>) -> Option<u64> {
    if s.len() > 0 && s[0] == '+' {
        digits_number(s.skip(1))
    } else {
        digits_number(s)
    }
}

proof fn lemma_digits_rise(s: Seq<char>, n: int)
    requires
        0 <= n <= s.len(),
    ensures
        digits_value(s.take(n)) <= digits_value(s),
    decreases s.len() - n,
{
    if n < s.len() {
        lemma_digits_rise(s, n + 1);
        assert(s.take(n + 1).drop_last() =~= s.take(n));
    } else {
        assert(s.take(n) =~= s);
    }
}

/// Reads a number of decimal digits.
fn parse_digits(chars: &Vec<char>, from: usize, to: usize) -> (r: Option<u64>)
    requires
        from <= to <= chars@.len(),
    ensures
        r == digits_number(chars@.subrange(from as int, to as int)),
{
    let ghost d = chars@.subrange(from as int, to as int);
    if from == to {
        return None;
    }
    let mut value: u64 = 0;
    let mut i: usize = from;
    assert(d.take(0) =~= Seq::<char>::empty());
    while i < to
        invariant
            from <= i <= to <= chars@.len(),
            from < to,
            d == chars@.subrange(from as int, to as int),
            forall|k: int| 0 <= k < i - from ==> is_digit(#[trigger] d[k]),
            value == digits_value(d.take(i - from)),
        decreases to - i,
    {
        let c: char = chars[i];
        assert(d[i - from] == c);
        let n: u32 = c as u32;
        if n < 0x30 || n > 0x39 {
            assert(!is_digit(d[i - from]));
            return None;
        }
        let digit: u64 = (n - 0x30) as u64;
        proof {
            assert(d.take(i - from + 1).drop_last() =~= d.take(i - from));
            assert(d.take(i - from + 1).last() == c);
            lemma_digits_rise(d, i - from + 1);
        }
        if value > (u64::MAX - digit) / 10 {
            assert(value * 10 + digit > u64::MAX);
            return None;
        }
        value = value * 10 + digit;
        i = i + 1;
    }
    assert(d.take(i - from) =~= d);
    Some(value)
}

/// Reads a number.
pub(crate) fn parse_number(chars: &Vec<char>, from: usize, to: usize) -> (r: Option<u64>)
    requires
        from <= to <= chars@.len(),
    ensures
        r == number_of(chars@.subrange(from as int, to as int)),
{
    let ghost s = chars@.subrange(from as int, to as int);
    if from < to {
        assert(s[0] == chars@[from as int]);
        if chars[from] == '+' {
            assert(s.skip(1) =~= chars@.subrange(from + 1, to as int));
            return parse_digits(chars, from + 1, to);
        }
    }
    parse_digits(chars, from, to)
}

/// Where the first space stands, or the length if there is none.
pub open spec fn first_space(s: Seq<char>) -> int
    decreases s.len(),
{
    if s.len() == 0 || s[0] == ' ' {
        0
    } else {
        1 + first_space(s.skip(1))
    }
}

fn find_space(chars: &Vec<char>, from: usize, to: usize) -> (r: usize)
    requires
        from <= to <= chars@.len(),
    ensures
        from <= r <= to,
        r - from == first_space(chars@.subrange(from as int, to as int)),
{
    let ghost s = chars@.subrange(from as int, to as int);
    let mut i: usize = from;
    while i < to && chars[i] != ' '
        invariant
            from <= i <= to <= chars@.len(),
            first_space(s) == (i - from) + first_space(chars@.subrange(i as int, to as int)),
        decreases to - i,
    {
        proof {
            let t = chars@.subrange(i as int, to as int);
            assert(t[0] == chars@[i as int]);
            assert(t.skip(1) =~= chars@.subrange(i + 1, to as int));
        }
        i = i + 1;
    }
    assert(first_space(chars@.subrange(i as int, to as int)) == 0) by {
        if i < to {
            assert(chars@.subrange(i as int, to as int)[0] == chars@[i as int]);
        }
    }
    i
}

/// What a line asks for.
#[derive(Debug, PartialEq, Eq)]
pub enum InputAction {
    /// Send this to the selected conversation.
    Send {
        /// What to send.
        content: String,
    },
    /// Select the conversation with this user.
    SwitchTo(u64),
    /// Leave.
    Quit,
    /// Nothing.
    Ignored,
}

/// What an [`InputAction`] says.
pub enum InputActionModel {
    Send { content: Seq<char> },
    SwitchTo(u64),
    Quit,
    Ignored,
}

impl View for InputAction {
    type V = InputActionModel;

    open spec fn view(&self) -> InputActionModel {
        match *self {
            InputAction::Send { content } => InputActionModel::Send { content: content@ },
            InputAction::SwitchTo(peer) => InputActionModel::SwitchTo(peer),
            InputAction::Quit => InputActionModel::Quit,
            InputAction::Ignored => InputActionModel::Ignored,
        }
    }
}

/// What a command, without its slash, asks for.
pub open spec fn command_model(rest: Seq<char>) -> InputActionModel {
    let at = first_space(rest);
    let cmd = rest.take(at);
    let arg = if at < rest.len() {
        rest.skip(at + 1)
    } else {
        Seq::empty()
    };
    if cmd == "to"@ && number_of(trimmed(arg)) is Some {
        InputActionModel::SwitchTo(number_of(trimmed(arg))->Some_0)
    } else if cmd == "quit"@ {
        InputActionModel::Quit
    } else {
        InputActionModel::Ignored
    }
}

/// What a line asks for.
pub open spec fn input_model(line: Seq<char>) -> InputActionModel {
    let s = trimmed(line);
    if s.len() == 0 {
        InputActionModel::Ignored
    } else if s[0] == '/' {
        command_model(s.skip(1))
    } else {
        InputActionModel::Send { content: s }
    }
}

/// Whether a part of a text is this word.
fn is_word(chars: &Vec<char>, from: usize, to: usize, word: &str) -> (r: bool)
    requires
        from <= to <= chars@.len(),
    ensures
        r == (chars@.subrange(from as int, to as int) == word@),
{
    let w = chars_of(word);
    if w.len() != to - from {
        return false;
    }
    let mut i: usize = 0;
    while i < w.len()
        invariant
            i <= w@.len(),
            w@ == word@,
            from <= to <= chars@.len(),
            w@.len() == to - from,
            forall|k: int| 0 <= k < i ==> chars@[from + k] == #[trigger] w@[k],
        decreases w@.len() - i,
    {
        if chars[from + i] != w[i] {
            assert(chars@.subrange(from as int, to as int)[i as int] != word@[i as int]);
            return false;
        }
        i = i + 1;
    }
    assert(chars@.subrange(from as int, to as int) =~= word@);
    true
}

/// What a command, without its slash, asks for.
fn parse_command(chars: &Vec<char>, from: usize, to: usize) -> (r: InputAction)
    requires
        from <= to <= chars@.len(),
    ensures
        r@ == command_model(chars@.subrange(from as int, to as int)),
{
    let ghost rest = chars@.subrange(from as int, to as int);
    let at: usize = find_space(chars, from, to);
    assert(rest.take(at - from) =~= chars@.subrange(from as int, at as int));
    let arg: usize = if at < to {
        at + 1
    } else {
        to
    };
    proof {
        if at < to {
            assert(rest.skip(at - from + 1) =~= chars@.subrange(arg as int, to as int));
        } else {
            assert(chars@.subrange(arg as int, to as int) =~= Seq::<char>::empty());
        }
    }
    let (c, d) = trim(chars, arg, to);
    if is_word(chars, from, at, "to") {
        if let Some(peer) = parse_number(chars, c, d) {
            return InputAction::SwitchTo(peer);
        }
    }
    if is_word(chars, from, at, "quit") {
        return InputAction::Quit;
    }
    InputAction::Ignored
}

/// What a line asks for: commands begin with a slash.
#[must_use]
pub fn parse_input(line: &str) -> (r: InputAction)
    ensures
        r@ == input_model(line@),
{
    let chars = chars_of(line);
    let n: usize = chars.len();
    assert(chars@.subrange(0, n as int) =~= line@);
    let (a, b) = trim(&chars, 0, n);
    let ghost s = trimmed(line@);
    assert(s.len() == b - a);
    if a == b {
        return InputAction::Ignored;
    }
    assert(s[0] == chars@[a as int]);
    if chars[a] != '/' {
        return InputAction::Send { content: string_of(&chars, a, b) };
    }
    assert(s.skip(1) =~= chars@.subrange(a + 1, b as int));
    parse_command(&chars, a + 1, b)
}

/// What a line of the plain client sends: a recipient and, behind the first
/// space, what is sent.
pub open spec fn line_model(line: Seq<char>) -> Option<(u64, Seq<char>)> {
    let at = first_space(line);
    if at >= line.len() {
        None
    } else {
        match number_of(trimmed(line.take(at))) {
            None => None,
            Some(to) => if line.skip(at + 1).len() == 0 {
                None
            } else {
                Some((to, line.skip(at + 1)))
            },
        }
    }
}

/// What a line of the plain client sends.
#[must_use]
pub fn parse_line(line: &str) -> (r: Option<(u64, String)>)
    ensures
        match line_model(line@) {
            Some((to, content)) => r is Some && r->Some_0.0 == to && r->Some_0.1@ == content,
            None => r is None,
        },
{
    let chars = chars_of(line);
    let n: usize = chars.len();
    assert(chars@.subrange(0, n as int) =~= line@);
    let at: usize = find_space(&chars, 0, n);
    if at >= n {
        return None;
    }
    assert(chars@.subrange(0, at as int) =~= line@.take(at as int));
    let (a, b) = trim(&chars, 0, at);
    match parse_number(&chars, a, b) {
        None => None,
        Some(to) => {
            if at + 1 == n {
                return None;
            }
            let content = string_of(&chars, at + 1, n);
            assert(content@ =~= line@.skip(at + 1));
            Some((to, content))
        },
    }
}

// ---------------------------------------------------------------------------
// Laws
// ---------------------------------------------------------------------------

/// Every character is white space.
pub open spec fn all_white(s: Seq<char>) -> bool {
    forall|i: int| 0 <= i < s.len() ==> is_white(#[trigger] s[i])
}

/// The text neither begins nor ends with white space.
pub open spec fn is_trim(s: Seq<char>) -> bool {
    s.len() > 0 ==> !is_white(s[0]) && !is_white(s.last())
}

proof fn lemma_trim_start(a: Seq<char>, s: Seq<char>)
    requires
        all_white(a),
        s.len() == 0 || !is_white(s[0]),
    ensures
        trim_start(a + s) == s,
    decreases a.len(),
{
    if a.len() == 0 {
        assert(a + s =~= s);
    } else {
        assert((a + s)[0] == a[0]);
        assert((a + s).skip(1) =~= a.skip(1) + s);
        assert forall|i: int| 0 <= i < a.skip(1).len() implies is_white(#[trigger] a.skip(1)[i]) by {
            assert(a.skip(1)[i] == a[i + 1]);
        }
        lemma_trim_start(a.skip(1), s);
    }
}

proof fn lemma_trim_end(s: Seq<char>, b: Seq<char>)
    requires
        all_white(b),
        s.len() == 0 || !is_white(s.last()),
    ensures
        trim_end(s + b) == s,
    decreases b.len(),
{
    if b.len() == 0 {
        assert(s + b =~= s);
    } else {
        assert((s + b).last() == b.last());
        assert(is_white(b[b.len() - 1]));
        assert((s + b).drop_last() =~= s + b.drop_last());
        assert forall|i: int| 0 <= i < b.drop_last().len() implies is_white(
            #[trigger] b.drop_last()[i],
        ) by {
            assert(b.drop_last()[i] == b[i]);
        }
        lemma_trim_end(s, b.drop_last());
    }
}

/// White space around a text is taken off, all of it and nothing else.
pub proof fn law_white_space_is_taken_off(a: Seq<char>, s: Seq<char>, b: Seq<char>)
    requires
        all_white(a),
        all_white(b),
        is_trim(s),
    ensures
        trimmed(a + s + b) == s,
{
    if s.len() == 0 {
        assert(a + s + b =~= (a + b) + s);
        assert forall|i: int| 0 <= i < (a + b).len() implies is_white(#[trigger] (a + b)[i]) by {
            if i < a.len() {
                assert((a + b)[i] == a[i]);
            } else {
                assert((a + b)[i] == b[i - a.len()]);
            }
        }
        lemma_trim_start(a + b, s);
    } else {
        assert(a + s + b =~= a + (s + b));
        assert((s + b)[0] == s[0]);
        lemma_trim_start(a, s + b);
        lemma_trim_end(s, b);
    }
}

proof fn lemma_decimal(n: nat)
    ensures
        decimal(n).len() > 0,
        all_digits(decimal(n)),
        digits_value(decimal(n)) == n,
        n > 0 ==> decimal(n)[0] != '0',
    decreases n,
{
    if n < 10 {
        let d = decimal(n);
        assert(d =~= seq![digit_char(n)]);
        assert(d.drop_last() =~= Seq::<char>::empty());
        assert(digits_value(d.drop_last()) == 0);
        assert(d.last() == digit_char(n));
    } else {
        lemma_decimal(n / 10);
        let t = decimal(n / 10);
        let d = decimal(n);
        assert(d.drop_last() =~= t);
        assert(d.last() == digit_char(n % 10));
        assert forall|i: int| 0 <= i < d.len() implies is_digit(#[trigger] d[i]) by {
            if i < t.len() {
                assert(d[i] == t[i]);
            }
        }
        assert(d[0] == t[0]);
    }
}

/// A number that is written is read back, with a plus sign and without; one that is
/// too large is none. It is written without zeros in front.
pub proof fn law_number_reads_back(n: nat)
    ensures
        number_of(decimal(n)) == if n <= u64::MAX {
            Some(n as u64)
        } else {
            None
        },
        number_of(seq!['+'] + decimal(n)) == number_of(decimal(n)),
        n > 0 ==> decimal(n)[0] != '0',
{
    lemma_decimal(n);
    assert(is_digit(decimal(n)[0]));
    assert((seq!['+'] + decimal(n)).skip(1) =~= decimal(n));
}

/// Two numbers are written alike only if they are the same.
pub proof fn law_decimals_tell_numbers_apart(a: nat, b: nat)
    requires
        decimal(a) == decimal(b),
    ensures
        a == b,
{
    lemma_decimal(a);
    lemma_decimal(b);
}

/// A text in which a character is no digit is no number, but for a plus sign in
/// front; neither is one without digits.
pub proof fn law_text_is_no_number(s: Seq<char>, i: int)
    ensures
        0 <= i < s.len() && !is_digit(s[i]) && !(i == 0 && s[i] == '+') ==> number_of(s) is None,
        s.len() == 0 ==> number_of(s) is None,
        s == seq!['+'] ==> number_of(s) is None,
{
    if 0 <= i < s.len() && s[0] == '+' && i > 0 {
        assert(s.skip(1)[i - 1] == s[i]);
    }
}

proof fn lemma_first_space(a: Seq<char>, b: Seq<char>)
    requires
        forall|i: int| 0 <= i < a.len() ==> #[trigger] a[i] != ' ',
    ensures
        first_space(a + seq![' '] + b) == a.len(),
        first_space(a) == a.len(),
    decreases a.len(),
{
    let s = a + seq![' '] + b;
    if a.len() == 0 {
        assert(s[0] == ' ');
    } else {
        let t = a.skip(1);
        assert forall|i: int| 0 <= i < t.len() implies #[trigger] t[i] != ' ' by {
            assert(t[i] == a[i + 1]);
        }
        lemma_first_space(t, b);
        assert(s[0] == a[0]);
        assert(s.skip(1) =~= t + seq![' '] + b);
    }
}

/// A number in decimal holds no space, and no white space around it.
pub proof fn law_number_is_one_word(n: nat)
    ensures
        is_trim(decimal(n)),
        forall|i: int| 0 <= i < decimal(n).len() ==> #[trigger] decimal(n)[i] != ' ',
{
    lemma_decimal(n);
    let d = decimal(n);
    assert(is_digit(d[0]) && is_digit(d[d.len() - 1]));
    assert forall|i: int| 0 <= i < d.len() implies #[trigger] d[i] != ' ' by {
        assert(is_digit(d[i]));
    }
}

/// A line of the plain client with a recipient, a space and a content sends just that
/// content to that recipient; without a space or without a content, nothing.
pub proof fn law_plain_line_is_sent(to: u64, content: Seq<char>)
    ensures
        line_model(decimal(to as nat) + seq![' '] + content) == if content.len() > 0 {
            Some((to, content))
        } else {
            None
        },
        line_model(decimal(to as nat)) is None,
{
    let d = decimal(to as nat);
    let line = d + seq![' '] + content;
    let none = Seq::<char>::empty();
    law_number_is_one_word(to as nat);
    lemma_first_space(d, content);
    law_number_reads_back(to as nat);
    law_white_space_is_taken_off(none, d, none);
    assert(none + d + none =~= d);
    assert(line.take(d.len() as int) =~= d);
    assert(line.skip(d.len() as int + 1) =~= content);
}

/// A line that is no command is sent, without the white space around it; white space
/// alone asks for nothing.
pub proof fn law_typed_line_is_sent(a: Seq<char>, s: Seq<char>, b: Seq<char>)
    requires
        all_white(a),
        all_white(b),
        is_trim(s),
    ensures
        s.len() == 0 ==> input_model(a + s + b) == InputActionModel::Ignored,
        s.len() > 0 && s[0] != '/' ==> input_model(a + s + b) == (InputActionModel::Send {
            content: s,
        }),
{
    law_white_space_is_taken_off(a, s, b);
}

/// The commands: one selects the conversation with the user whose number it gives,
/// one leaves; with any other word a command asks for nothing.
pub proof fn law_commands(peer: u64, word: Seq<char>, rest: Seq<char>)
    requires
        forall|i: int| 0 <= i < word.len() ==> #[trigger] word[i] != ' ',
    ensures
        command_model("to"@ + seq![' '] + decimal(peer as nat)) == InputActionModel::SwitchTo(peer),
        command_model("quit"@) == InputActionModel::Quit,
        word != "to"@ && word != "quit"@ ==> command_model(word + seq![' '] + rest)
            == InputActionModel::Ignored && command_model(word) == InputActionModel::Ignored,
        word == "quit"@ ==> command_model(word + seq![' '] + rest) == InputActionModel::Quit,
{
    reveal_strlit("to");
    reveal_strlit("quit");
    let d = decimal(peer as nat);
    let none = Seq::<char>::empty();
    law_number_is_one_word(peer as nat);
    law_number_reads_back(peer as nat);
    law_white_space_is_taken_off(none, d, none);
    assert(none + d + none =~= d);
    lemma_first_space("to"@, d);
    let line = "to"@ + seq![' '] + d;
    assert(line.take(2) =~= "to"@);
    assert(line.skip(3) =~= d);
    lemma_first_space("quit"@, none);
    assert("quit"@.take(4) =~= "quit"@);
    assert("quit"@[0] != "to"@[0]);
    lemma_first_space(word, rest);
    let other = word + seq![' '] + rest;
    assert(other.take(word.len() as int) =~= word);
    assert(word.take(word.len() as int) =~= word);
}

/// Two digits are read back as the number, and have a zero in front of a small one.
pub proof fn law_two_digits_read_back(n: nat)
    requires
        n < 100,
    ensures
        two_digits(n).len() == 2,
        all_digits(two_digits(n)),
        digits_value(two_digits(n)) == n,
{
    let s = two_digits(n);
    reveal_with_fuel(digits_value, 3);
    assert(s.drop_last().drop_last() =~= Seq::<char>::empty());
    assert(s.drop_last().last() == digit_char(n / 10));
    assert(s.last() == digit_char(n % 10));
    assert forall|i: int| 0 <= i < s.len() implies is_digit(#[trigger] s[i]) by {
        assert(s[i] == digit_char(n / 10) || s[i] == digit_char(n % 10));
    }
}

/// The value of a hexadecimal digit.
pub open spec fn hex_value(c: char) -> nat {
    if is_digit(c) {
        digit_value(c)
    } else {
        (c as u32 - 0x61 + 10) as nat
    }
}

/// The number that hexadecimal digits stand for.
pub open spec fn hex_number(s: Seq<char>) -> nat
    decreases s.len(),
{
    if s.len() == 0 {
        0
    } else {
        hex_number(s.drop_last()) * 16 + hex_value(s.last())
    }
}

/// A number in eight, four or two hexadecimal digits is read back.
pub proof fn law_hexadecimal_reads_back(n: nat, width: nat)
    requires
        n < 0x1_0000_0000,
        width <= 8,
    ensures
        hexadecimal(n, width).len() == width,
        width == 8 ==> hex_number(hexadecimal(n, width)) == n,
        width == 4 && n < 0x1_0000 ==> hex_number(hexadecimal(n, width)) == n,
        width == 2 && n < 0x100 ==> hex_number(hexadecimal(n, width)) == n,
        width == 0 ==> hex_number(hexadecimal(n, width)) == 0,
{
    lemma_hexadecimal(n, width);
}

/// Sixteen to the power of `w`.
spec fn sixteens(w: nat) -> nat
    decreases w,
{
    if w == 0 {
        1
    } else {
        16 * sixteens((w - 1) as nat)
    }
}

proof fn lemma_hexadecimal(n: nat, width: nat)
    requires
        width <= 8,
    ensures
        hexadecimal(n, width).len() == width,
        n < sixteens(width) ==> hex_number(hexadecimal(n, width)) == n,
        sixteens(0) == 1,
        sixteens(2) == 0x100,
        sixteens(4) == 0x1_0000,
        sixteens(8) == 0x1_0000_0000,
    decreases width,
{
    reveal_with_fuel(sixteens, 9);
    if width > 0 {
        let w = (width - 1) as nat;
        lemma_hexadecimal(n / 16, w);
        let s = hexadecimal(n, width);
        assert(s.drop_last() =~= hexadecimal(n / 16, w));
        assert(s.last() == hex_char(n % 16));
        assert(hex_value(hex_char(n % 16)) == n % 16);
        assert(sixteens(width) == 16 * sixteens(w));
    }
}

} // verus!
