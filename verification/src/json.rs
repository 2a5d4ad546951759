//! JSON strings, and what a JSON reader makes of a document.

use vstd::prelude::*;

use crate::text::{all_digits, chars_of, has_prefix, is_digit};

verus! {

// ---------------------------------------------------------------------------
// Escaping
// ---------------------------------------------------------------------------

/// How a character is written inside a JSON string.
pub open spec fn escaped_char(c: char) -> Seq<char> {
    if c == '"' {
        seq!['\\', '"']
    } else if c == '\\' {
        seq!['\\', '\\']
    } else if c == '\n' {
        seq!['\\', 'n']
    } else if c == '\r' {
        seq!['\\', 'r']
    } else if c == '\t' {
        seq!['\\', 't']
    } else {
        seq![c]
    }
}

/// How a text is written inside a JSON string: character by character.
pub open spec fn escaped(s: Seq<char>) -> Seq<char>
    decreases s.len(),
{
    if s.len() == 0 {
        Seq::empty()
    } else {
        escaped_char(s[0]) + escaped(s.drop_first())
    }
}

/// The escaped form of two texts in a row.
pub proof fn lemma_escaped_concat(a: Seq<char>, b: Seq<char>)
    ensures
        escaped(a + b) == escaped(a) + escaped(b),
    decreases a.len(),
{
    if a.len() == 0 {
        assert(a + b =~= b);
        assert(escaped(a) + escaped(b) =~= escaped(b));
    } else {
        lemma_escaped_concat(a.drop_first(), b);
        assert((a + b).drop_first() =~= a.drop_first() + b);
        assert(escaped(a + b) =~= escaped(a) + escaped(b));
    }
}

/// What becomes of each character: the quotation mark and the backslash get a
/// backslash in front, line feed, carriage return and tab are written as a backslash
/// and a letter, and every other character stays. A text is escaped character by
/// character, as [`lemma_escaped_concat`] has it.
pub proof fn lemma_escaped_single(c: char)
    ensures
        escaped(Seq::empty()) == Seq::<char>::empty(),
        escaped(seq!['"']) == seq!['\\', '"'],
        escaped(seq!['\\']) == seq!['\\', '\\'],
        escaped(seq!['\n']) == seq!['\\', 'n'],
        escaped(seq!['\r']) == seq!['\\', 'r'],
        escaped(seq!['\t']) == seq!['\\', 't'],
        c != '"' && c != '\\' && c != '\n' && c != '\r' && c != '\t' ==> escaped(seq![c]) == seq![c],
{
    lemma_escaped_one(c);
    lemma_escaped_one('"');
    lemma_escaped_one('\\');
    lemma_escaped_one('\n');
    lemma_escaped_one('\r');
    lemma_escaped_one('\t');
}

proof fn lemma_escaped_one(c: char)
    ensures
        escaped(seq![c]) == escaped_char(c),
{
    reveal_with_fuel(escaped, 2);
    assert(seq![c].drop_first() =~= Seq::<char>::empty());
    assert(escaped(seq![c]) =~= escaped_char(c));
}

/// Escapes a text for use inside a JSON string.
pub fn json_escape(s: &str) -> (out: String)
    ensures
        out@ == escaped(s@),
{
    let chars = chars_of(s);
    let mut out: String = String::new();
    let mut i: usize = 0;
    while i < chars.len()
        invariant
            0 <= i <= chars@.len(),
            out@ == escaped(chars@.take(i as int)),
        decreases chars@.len() - i,
    {
        let c = chars[i];
        proof {
            lemma_escaped_concat(chars@.take(i as int), seq![c]);
            reveal_with_fuel(escaped, 2);
            assert(seq![c].drop_first() =~= Seq::<char>::empty());
            assert(escaped(seq![c]) =~= escaped_char(c));
            assert(chars@.take(i + 1) =~= chars@.take(i as int) + seq![c]);
        }
        if c == '"' {
            out.push('\\');
            out.push('"');
        } else if c == '\\' {
            out.push('\\');
            out.push('\\');
        } else if c == '\n' {
            out.push('\\');
            out.push('n');
        } else if c == '\r' {
            out.push('\\');
            out.push('r');
        } else if c == '\t' {
            out.push('\\');
            out.push('t');
        } else {
            out.push(c);
        }
        assert(out@ =~= escaped(chars@.take(i as int)) + escaped_char(c));
        i = i + 1;
    }
    assert(chars@.take(chars@.len() as int) =~= s@);
    out
}

/// Whether `c` is one of the characters that JSON allows in no string unescaped,
/// apart from the quotation mark and the backslash.
pub open spec fn is_control(c: char) -> bool {
    c < ' '
}

/// Whether every control character of `s` is one that escaping takes care of.
pub open spec fn is_printable(s: Seq<char>) -> bool {
    forall|i: int|
        0 <= i < s.len() ==> (is_control(#[trigger] s[i]) ==> s[i] == '\n' || s[i] == '\r' || s[i]
            == '\t')
}

/// Whether `s` holds nothing that would have to be escaped.
pub open spec fn is_plain(s: Seq<char>) -> bool {
    forall|i: int|
        0 <= i < s.len() ==> (!is_control(#[trigger] s[i]) && s[i] != '"' && s[i] != '\\')
}

/// A text that needs no escaping is left as it is.
pub proof fn lemma_escaped_plain(s: Seq<char>)
    requires
        is_plain(s),
    ensures
        escaped(s) == s,
    decreases s.len(),
{
    if s.len() > 0 {
        assert forall|i: int| 0 <= i < s.drop_first().len() implies (!is_control(
            #[trigger] s.drop_first()[i],
        ) && s.drop_first()[i] != '"' && s.drop_first()[i] != '\\') by {
            assert(s.drop_first()[i] == s[i + 1]);
        }
        lemma_escaped_plain(s.drop_first());
        assert(!is_control(s[0]));
        assert(escaped(s) =~= s);
    } else {
        assert(escaped(s) =~= s);
    }
}

/// An escaped text holds no line feed, carriage return or tab.
pub proof fn lemma_escaped_one_line(s: Seq<char>)
    ensures
        forall|i: int|
            0 <= i < escaped(s).len() ==> {
                let c = #[trigger] escaped(s)[i];
                c != '\n' && c != '\r' && c != '\t'
            },
    decreases s.len(),
{
    if s.len() > 0 {
        lemma_escaped_one_line(s.drop_first());
        let head = escaped_char(s[0]);
        assert forall|i: int| 0 <= i < escaped(s).len() implies {
            let c = #[trigger] escaped(s)[i];
            c != '\n' && c != '\r' && c != '\t'
        } by {
            if i >= head.len() {
                assert(escaped(s)[i] == escaped(s.drop_first())[i - head.len()]);
            } else {
                assert(escaped(s)[i] == head[i]);
            }
        }
    }
}

/// The hexadecimal digit of a number below 16.
pub open spec fn hex_char(d: nat) -> char
    recommends
        d < 16,
{
    if d < 10 {
        (('0' as int) + d) as char
    } else {
        (('a' as int) + d - 10) as char
    }
}

/// A control character by its code point.
pub open spec fn coded_control(c: char) -> Seq<char> {
    seq!['\\', 'u', '0', '0', hex_char(c as nat / 16), hex_char(c as nat % 16)]
}

proof fn lemma_coded_control(c: char)
    requires
        is_control(c),
    ensures
        forall|i: int| 0 <= i < 6 ==> !is_control(#[trigger] coded_control(c)[i]),
        coded_char(coded_control(c).subrange(2, 6)) == Some(c),
{
    let high = c as nat / 16;
    let low = c as nat % 16;
    let digits = coded_control(c).subrange(2, 6);
    assert(digits =~= seq!['0', '0', hex_char(high), hex_char(low)]);
    assert(hex_value('0') == Some(0nat));
    assert(hex_value(hex_char(high)) == Some(high));
    assert(hex_value(hex_char(low)) == Some(low));
    assert((16 * high + low) as char == c);
    assert(!is_control(hex_char(high)) && !is_control(hex_char(low)));
}

/// A control character by its code point, any other character as it is.
pub open spec fn coded_if_control(c: char) -> Seq<char> {
    if is_control(c) {
        coded_control(c)
    } else {
        seq![c]
    }
}

/// `s` with every control character given by its code point.
pub open spec fn with_controls_coded(s: Seq<char>) -> Seq<char>
    decreases s.len(),
{
    if s.len() == 0 {
        Seq::empty()
    } else {
        coded_if_control(s[0]) + with_controls_coded(s.drop_first())
    }
}

/// How a character is written inside a JSON string, whichever it is: as
/// [`escaped_char`] has it, but a control character that is left over by its code
/// point.
pub open spec fn string_char(c: char) -> Seq<char> {
    if is_control(c) && c != '\n' && c != '\r' && c != '\t' {
        coded_control(c)
    } else {
        escaped_char(c)
    }
}

/// How any text is written inside a JSON string: character by character.
pub open spec fn string_text(s: Seq<char>) -> Seq<char>
    decreases s.len(),
{
    if s.len() == 0 {
        Seq::empty()
    } else {
        string_char(s[0]) + string_text(s.drop_first())
    }
}

proof fn lemma_controls_coded_concat(a: Seq<char>, b: Seq<char>)
    ensures
        with_controls_coded(a + b) == with_controls_coded(a) + with_controls_coded(b),
    decreases a.len(),
{
    if a.len() == 0 {
        assert(a + b =~= b);
        assert(with_controls_coded(a) + with_controls_coded(b) =~= with_controls_coded(b));
    } else {
        lemma_controls_coded_concat(a.drop_first(), b);
        assert((a + b).drop_first() =~= a.drop_first() + b);
        assert(with_controls_coded(a + b) =~= with_controls_coded(a) + with_controls_coded(b));
    }
}

/// Escaping a text and then coding the control characters that are left over
/// writes it as a JSON string has it.
proof fn lemma_string_text_in_two_steps(s: Seq<char>)
    ensures
        with_controls_coded(escaped(s)) == string_text(s),
    decreases s.len(),
{
    if s.len() > 0 {
        let head = escaped_char(s[0]);
        lemma_string_text_in_two_steps(s.drop_first());
        lemma_controls_coded_concat(head, escaped(s.drop_first()));
        reveal_with_fuel(with_controls_coded, 3);
        if head.len() == 2 {
            assert(head.drop_first() =~= seq![head[1]]);
            assert(seq![head[1]].drop_first() =~= Seq::<char>::empty());
        } else {
            assert(head.drop_first() =~= Seq::<char>::empty());
        }
        assert(with_controls_coded(head) =~= string_char(s[0]));
    }
}

fn hex_digit(d: u8) -> (c: char)
    requires
        d < 16,
    ensures
        c == hex_char(d as nat),
{
    if d < 10 {
        (48 + d) as char
    } else {
        (87 + d) as char
    }
}

fn push_coded_if_control(out: &mut String, c: char)
    ensures
        final(out)@ == old(out)@ + coded_if_control(c),
{
    if c <= '\u{1f}' {
        let code: u32 = c as u32;
        out.push('\\');
        out.push('u');
        out.push('0');
        out.push('0');
        out.push(hex_digit((code / 16) as u8));
        out.push(hex_digit((code % 16) as u8));
    } else {
        out.push(c);
    }
    assert(out@ =~= old(out)@ + coded_if_control(c));
}

/// Writes any text for use inside a JSON string: [`json_escape`], and then each
/// control character that it leaves by its code point.
pub fn json_string(s: &str) -> (out: String)
    ensures
        out@ == string_text(s@),
{
    let chars = chars_of(json_escape(s).as_str());
    let mut out: String = String::new();
    let mut i: usize = 0;
    while i < chars.len()
        invariant
            0 <= i <= chars@.len(),
            out@ == with_controls_coded(chars@.take(i as int)),
        decreases chars@.len() - i,
    {
        let c = chars[i];
        proof {
            lemma_controls_coded_concat(chars@.take(i as int), seq![c]);
            reveal_with_fuel(with_controls_coded, 2);
            assert(seq![c].drop_first() =~= Seq::<char>::empty());
            assert(with_controls_coded(seq![c]) =~= coded_if_control(c));
            assert(chars@.take(i + 1) =~= chars@.take(i as int) + seq![c]);
        }
        push_coded_if_control(&mut out, c);
        i = i + 1;
    }
    proof {
        assert(chars@.take(chars@.len() as int) =~= chars@);
        lemma_string_text_in_two_steps(s@);
    }
    out
}

/// What is written inside a JSON string for two texts in a row.
pub proof fn lemma_string_text_concat(a: Seq<char>, b: Seq<char>)
    ensures
        string_text(a + b) == string_text(a) + string_text(b),
    decreases a.len(),
{
    if a.len() == 0 {
        assert(a + b =~= b);
        assert(string_text(a) + string_text(b) =~= string_text(b));
    } else {
        lemma_string_text_concat(a.drop_first(), b);
        assert((a + b).drop_first() =~= a.drop_first() + b);
        assert(string_text(a + b) =~= string_text(a) + string_text(b));
    }
}

/// What becomes of each character inside a JSON string: what escaping makes of it,
/// but a control character other than line feed, carriage return and tab is written
/// as a backslash, a `u`, two zeros and the two hexadecimal digits of its code. A
/// text is written character by character, as [`lemma_string_text_concat`] has it.
pub proof fn lemma_string_text_single(c: char)
    ensures
        string_text(Seq::empty()) == Seq::<char>::empty(),
        c >= ' ' || c == '\n' || c == '\r' || c == '\t' ==> string_text(seq![c]) == escaped(seq![c]),
        c < ' ' && c != '\n' && c != '\r' && c != '\t' ==> {
            let text = string_text(seq![c]);
            let high = c as int / 16;
            let low = c as int % 16;
            &&& text.len() == 6
            &&& text[0] == '\\' && text[1] == 'u' && text[2] == '0' && text[3] == '0'
            &&& text[4] as int == '0' as int + high
            &&& low < 10 ==> text[5] as int == '0' as int + low
            &&& low >= 10 ==> text[5] as int == 'a' as int + low - 10
        },
{
    reveal_with_fuel(string_text, 2);
    assert(seq![c].drop_first() =~= Seq::<char>::empty());
    assert(string_text(seq![c]) =~= string_char(c));
    lemma_escaped_one(c);
    if is_control(c) {
        assert(c as nat / 16 < 10 && c as nat % 16 < 16);
        assert(hex_char(c as nat / 16) as int == '0' as int + c as int / 16);
    }
}

/// Where escaping takes care of every control character, nothing is coded.
pub proof fn lemma_string_text_printable(s: Seq<char>)
    requires
        is_printable(s),
    ensures
        string_text(s) == escaped(s),
    decreases s.len(),
{
    if s.len() > 0 {
        let tail = s.drop_first();
        assert forall|i: int| 0 <= i < tail.len() && is_control(#[trigger] tail[i]) implies tail[i]
            == '\n' || tail[i] == '\r' || tail[i] == '\t' by {
            assert(tail[i] == s[i + 1]);
        }
        lemma_string_text_printable(tail);
        assert(is_control(s[0]) ==> s[0] == '\n' || s[0] == '\r' || s[0] == '\t');
    }
}

/// What is written inside a JSON string holds no control character, and so no
/// line feed.
pub proof fn lemma_string_text_has_no_control(s: Seq<char>)
    ensures
        forall|i: int| 0 <= i < string_text(s).len() ==> !is_control(#[trigger] string_text(s)[i]),
    decreases s.len(),
{
    if s.len() > 0 {
        lemma_string_text_has_no_control(s.drop_first());
        let head = string_char(s[0]);
        if is_control(s[0]) {
            lemma_coded_control(s[0]);
        }
        assert forall|i: int| 0 <= i < string_text(s).len() implies !is_control(
            #[trigger] string_text(s)[i],
        ) by {
            if i >= head.len() {
                assert(string_text(s)[i] == string_text(s.drop_first())[i - head.len()]);
            } else {
                assert(string_text(s)[i] == head[i]);
            }
        }
    }
}

// ---------------------------------------------------------------------------
// Reading
// ---------------------------------------------------------------------------

/// A JSON value: the kinds that the collector's documents are made of. A number
/// is kept as it is written.
pub enum Json {
    Flag(bool),
    Number(Seq<char>),
    Text(Seq<char>),
    Object(Seq<Member>),
}

/// A member of a JSON object.
pub struct Member {
    pub key: Seq<char>,
    pub value: Json,
}

/// What the character after a backslash stands for.
pub open spec fn unescaped_char(c: char) -> Option<char> {
    if c == '"' || c == '\\' || c == '/' {
        Some(c)
    } else if c == 'n' {
        Some('\n')
    } else if c == 'r' {
        Some('\r')
    } else if c == 't' {
        Some('\t')
    } else if c == 'b' {
        Some('\u{8}')
    } else if c == 'f' {
        Some('\u{c}')
    } else {
        None
    }
}

/// The value of a hexadecimal digit, of either case.
pub open spec fn hex_value(c: char) -> Option<nat> {
    if '0' <= c <= '9' {
        Some(((c as int) - ('0' as int)) as nat)
    } else if 'a' <= c <= 'f' {
        Some(((c as int) - ('a' as int) + 10) as nat)
    } else if 'A' <= c <= 'F' {
        Some(((c as int) - ('A' as int) + 10) as nat)
    } else {
        None
    }
}

/// The character that four hexadecimal digits stand for. Surrogates are left out.
pub open spec fn coded_char(digits: Seq<char>) -> Option<char> {
    match (
        hex_value(digits[0]),
        hex_value(digits[1]),
        hex_value(digits[2]),
        hex_value(digits[3]),
    ) {
        (Some(a), Some(b), Some(c), Some(d)) => {
            let code = 4096 * a + 256 * b + 16 * c + d;
            if 0xd800 <= code < 0xe000 {
                None
            } else {
                Some(code as char)
            }
        },
        _ => None,
    }
}

/// Reads a JSON string from behind its opening quotation mark: the text, and
/// what follows the closing one.
pub open spec fn read_text(s: Seq<char>) -> Option<(Seq<char>, Seq<char>)>
    decreases s.len(),
{
    if s.len() == 0 {
        None
    } else if s[0] == '"' {
        Some((Seq::empty(), s.skip(1)))
    } else if s[0] == '\\' {
        if s.len() == 1 {
            None
        } else if s[1] == 'u' {
            if s.len() < 6 {
                None
            } else {
                match (coded_char(s.subrange(2, 6)), read_text(s.skip(6))) {
                    (Some(c), Some((text, rest))) => Some((seq![c] + text, rest)),
                    _ => None,
                }
            }
        } else {
            match (unescaped_char(s[1]), read_text(s.skip(2))) {
                (Some(c), Some((text, rest))) => Some((seq![c] + text, rest)),
                _ => None,
            }
        }
    } else if is_control(s[0]) {
        None
    } else {
        match read_text(s.skip(1)) {
            Some((text, rest)) => Some((seq![s[0]] + text, rest)),
            None => None,
        }
    }
}

/// Whether `s` is a JSON integer: digits without a needless leading zero.
pub open spec fn is_integer(s: Seq<char>) -> bool {
    all_digits(s) && (s[0] == '0' ==> s.len() == 1)
}

/// Whether `s` is a JSON number without sign and exponent: an integer, alone or
/// followed by a point and one or more digits.
pub open spec fn is_number(s: Seq<char>) -> bool {
    ||| is_integer(s)
    ||| exists|p: int|
        0 < p < s.len() && #[trigger] s[p] == '.' && is_integer(s.take(p)) && all_digits(s.skip(p + 1))
}

/// Whether `c` can stand in a number.
pub open spec fn is_number_char(c: char) -> bool {
    is_digit(c) || c == '.'
}

/// How many characters of `s` from its start on can stand in a number.
pub open spec fn number_span(s: Seq<char>) -> nat
    decreases s.len(),
{
    if s.len() > 0 && is_number_char(s[0]) {
        1 + number_span(s.drop_first())
    } else {
        0
    }
}

/// Reads a JSON value, written without white space: the value, and what follows
/// it.
pub open spec fn read_value(s: Seq<char>) -> Option<(Json, Seq<char>)>
    decreases s.len(), 1int,
{
    if s.len() == 0 {
        None
    } else if s[0] == '"' {
        match read_text(s.skip(1)) {
            Some((text, rest)) => Some((Json::Text(text), rest)),
            None => None,
        }
    } else if s[0] == '{' {
        if s.len() > 1 && s[1] == '}' {
            Some((Json::Object(Seq::empty()), s.skip(2)))
        } else {
            match read_members(s.skip(1)) {
                Some((members, rest)) => Some((Json::Object(members), rest)),
                None => None,
            }
        }
    } else if has_prefix(s, seq!['t', 'r', 'u', 'e']) {
        Some((Json::Flag(true), s.skip(4)))
    } else if has_prefix(s, seq!['f', 'a', 'l', 's', 'e']) {
        Some((Json::Flag(false), s.skip(5)))
    } else if is_number(s.take(number_span(s) as int)) {
        Some((Json::Number(s.take(number_span(s) as int)), s.skip(number_span(s) as int)))
    } else {
        None
    }
}

/// Reads the members of a JSON object up to its closing brace, one or more:
/// the members, and what follows the brace.
pub open spec fn read_members(s: Seq<char>) -> Option<(Seq<Member>, Seq<char>)>
    decreases s.len(), 0int,
{
    if s.len() == 0 || s[0] != '"' {
        None
    } else {
        match read_text(s.skip(1)) {
            Some((key, after_key)) => {
                if after_key.len() == 0 || after_key[0] != ':' || after_key.len() >= s.len() {
                    None
                } else {
                    match read_value(after_key.skip(1)) {
                        Some((value, after_value)) => {
                            let member = Member { key, value };
                            if after_value.len() == 0 || after_value.len() >= s.len() {
                                None
                            } else if after_value[0] == '}' {
                                Some((seq![member], after_value.skip(1)))
                            } else if after_value[0] == ',' {
                                match read_members(after_value.skip(1)) {
                                    Some((others, rest)) => Some((seq![member] + others, rest)),
                                    None => None,
                                }
                            } else {
                                None
                            }
                        },
                        None => None,
                    }
                }
            },
            None => None,
        }
    }
}

/// How a text is written as a JSON string.
pub open spec fn quoted(s: Seq<char>) -> Seq<char> {
    seq!['"'] + string_text(s) + seq!['"']
}

/// How a JSON value is written, without white space.
pub open spec fn written(value: Json) -> Seq<char>
    decreases value,
{
    match value {
        Json::Flag(b) => if b {
            seq!['t', 'r', 'u', 'e']
        } else {
            seq!['f', 'a', 'l', 's', 'e']
        },
        Json::Number(n) => n,
        Json::Text(s) => quoted(s),
        Json::Object(members) => seq!['{'] + written_members(members) + seq!['}'],
    }
}

/// How the members of a JSON object are written, without the braces.
pub open spec fn written_members(members: Seq<Member>) -> Seq<char>
    decreases members,
{
    if members.len() == 0 {
        Seq::empty()
    } else {
        let first = quoted(members[0].key) + seq![':'] + written(members[0].value);
        if members.len() == 1 {
            first
        } else {
            first + seq![','] + written_members(members.drop_first())
        }
    }
}

/// Whether a JSON value can be written so that a reader accepts it: whether its
/// numbers are numbers.
pub open spec fn is_writable(value: Json) -> bool
    decreases value,
{
    match value {
        Json::Flag(_) => true,
        Json::Number(n) => is_number(n),
        Json::Text(_) => true,
        Json::Object(members) => are_writable(members),
    }
}

/// Whether the members of a JSON object can be written so that a reader accepts
/// them.
pub open spec fn are_writable(members: Seq<Member>) -> bool
    decreases members,
{
    members.len() > 0 ==> is_writable(members[0].value) && are_writable(members.drop_first())
}

/// A reader gets back any text that was written as a JSON string, and stops at
/// the quotation mark that closes the string, whatever follows.
pub proof fn lemma_string_reads_back(s: Seq<char>, rest: Seq<char>)
    ensures
        read_text(string_text(s) + seq!['"'] + rest) == Some((s, rest)),
    decreases s.len(),
{
    let all = string_text(s) + seq!['"'] + rest;
    if s.len() == 0 {
        assert(all[0] == '"');
        assert(all.skip(1) =~= rest);
        assert(s =~= Seq::empty());
    } else {
        let tail = s.drop_first();
        lemma_string_reads_back(tail, rest);
        let head = string_char(s[0]);
        assert(all =~= head + (string_text(tail) + seq!['"'] + rest));
        assert(all.skip(head.len() as int) =~= string_text(tail) + seq!['"'] + rest);
        assert(all[0] == head[0]);
        if head.len() == 2 {
            assert(all[1] == head[1]);
            assert(unescaped_char(head[1]) == Some(s[0]));
        } else if head.len() == 6 {
            assert(all[1] == head[1]);
            assert(all.subrange(2, 6) =~= head.subrange(2, 6));
            lemma_coded_control(s[0]);
        }
        assert(seq![s[0]] + tail =~= s);
    }
}

/// A reader gets back a text that was escaped, where escaping takes care of every
/// control character.
pub proof fn lemma_text_reads_back(s: Seq<char>, rest: Seq<char>)
    requires
        is_printable(s),
    ensures
        read_text(escaped(s) + seq!['"'] + rest) == Some((s, rest)),
{
    lemma_string_text_printable(s);
    lemma_string_reads_back(s, rest);
}

proof fn lemma_number_span(n: Seq<char>, rest: Seq<char>)
    requires
        forall|i: int| 0 <= i < n.len() ==> is_number_char(#[trigger] n[i]),
        rest.len() > 0 ==> !is_number_char(rest[0]),
    ensures
        number_span(n + rest) == n.len(),
    decreases n.len(),
{
    if n.len() == 0 {
        assert(n + rest =~= rest);
    } else {
        assert forall|i: int| 0 <= i < n.drop_first().len() implies is_number_char(
            #[trigger] n.drop_first()[i],
        ) by {
            assert(n.drop_first()[i] == n[i + 1]);
        }
        lemma_number_span(n.drop_first(), rest);
        assert((n + rest).drop_first() =~= n.drop_first() + rest);
        assert(is_number_char(n[0]));
        assert((n + rest)[0] == n[0]);
    }
}

/// A number starts with a digit and is made of digits and points.
pub proof fn lemma_number_characters(n: Seq<char>)
    requires
        is_number(n),
    ensures
        n.len() > 0,
        is_digit(n[0]),
        forall|i: int| 0 <= i < n.len() ==> is_number_char(#[trigger] n[i]),
{
    if !is_integer(n) {
        let p = choose|p: int|
            0 < p < n.len() && #[trigger] n[p] == '.' && is_integer(n.take(p)) && all_digits(
                n.skip(p + 1),
            );
        assert(n.take(p)[0] == n[0]);
        assert forall|i: int| 0 <= i < n.len() implies is_number_char(#[trigger] n[i]) by {
            if i < p {
                assert(n.take(p)[i] == n[i]);
            } else if i > p {
                assert(n.skip(p + 1)[i - p - 1] == n[i]);
            }
        }
    }
}

proof fn lemma_flag_reads_back(b: bool, rest: Seq<char>)
    ensures
        read_value(written(Json::Flag(b)) + rest) == Some((Json::Flag(b), rest)),
{
    let word = written(Json::Flag(b));
    let all = word + rest;
    assert(all.take(word.len() as int) =~= word);
    assert(all.skip(word.len() as int) =~= rest);
    assert(all[0] == word[0]);
    if !b {
        assert(all.take(4)[0] == 'f');
    }
}

proof fn lemma_number_reads_back(n: Seq<char>, rest: Seq<char>)
    requires
        is_number(n),
        rest.len() > 0 ==> !is_number_char(rest[0]),
    ensures
        read_value(n + rest) == Some((Json::Number(n), rest)),
{
    let all = n + rest;
    lemma_number_characters(n);
    lemma_number_span(n, rest);
    assert(all[0] == n[0]);
    assert(all.take(n.len() as int) =~= n);
    assert(all.skip(n.len() as int) =~= rest);
    if has_prefix(all, seq!['t', 'r', 'u', 'e']) {
        assert(all.take(4)[0] == 't');
    }
    if has_prefix(all, seq!['f', 'a', 'l', 's', 'e']) {
        assert(all.take(5)[0] == 'f');
    }
}

/// A reader gets back the value that was written, and stops where it ends; only
/// a number must not be followed by what could be more of it.
#[verifier::rlimit(30)]
pub proof fn lemma_value_reads_back(value: Json, rest: Seq<char>)
    requires
        is_writable(value),
        value is Number && rest.len() > 0 ==> !is_number_char(rest[0]),
    ensures
        read_value(written(value) + rest) == Some((value, rest)),
    decreases value,
{
    let all = written(value) + rest;
    match value {
        Json::Flag(b) => {
            lemma_flag_reads_back(b, rest);
        },
        Json::Number(n) => {
            lemma_number_reads_back(n, rest);
        },
        Json::Text(s) => {
            let after = string_text(s) + seq!['"'] + rest;
            lemma_string_reads_back(s, rest);
            assert(all =~= seq!['"'] + after);
            assert(all.skip(1) =~= after);
        },
        Json::Object(members) => {
            if members.len() == 0 {
                assert(all =~= seq!['{', '}'] + rest);
                assert(all.skip(2) =~= rest);
                assert(members =~= Seq::empty());
            } else {
                let after = written_members(members) + seq!['}'] + rest;
                lemma_members_read_back(members, rest);
                assert(all =~= seq!['{'] + after);
                assert(all.skip(1) =~= after);
                assert(all[1] == after[0]);
            }
        },
    }
}

/// Regrouping what a list of members is made of.
proof fn lemma_members_regrouped(
    key: Seq<char>,
    value: Seq<char>,
    others: Seq<char>,
    rest: Seq<char>,
)
    ensures
        (seq!['"'] + key + seq!['"']) + seq![':'] + value + seq!['}'] + rest == seq!['"'] + (key + seq![
            '"',
        ] + (seq![':'] + (value + (seq!['}'] + rest)))),
        (seq!['"'] + key + seq!['"']) + seq![':'] + value + seq![','] + others + seq!['}'] + rest
            == seq!['"'] + (key + seq!['"'] + (seq![':'] + (value + (seq![','] + (others + seq!['}']
            + rest))))),
{
}

/// What reading the members comes down to, given what reading the first key and
/// the first value comes to.
proof fn lemma_members_step(
    all: Seq<char>,
    key: Seq<char>,
    after_key: Seq<char>,
    value: Json,
    after_value: Seq<char>,
)
    requires
        all.len() > 0,
        all[0] == '"',
        read_text(all.skip(1)) == Some((key, after_key)),
        0 < after_key.len() < all.len(),
        after_key[0] == ':',
        read_value(after_key.skip(1)) == Some((value, after_value)),
        0 < after_value.len() < all.len(),
    ensures
        after_value[0] == '}' ==> read_members(all) == Some(
            (seq![Member { key, value }], after_value.skip(1)),
        ),
        after_value[0] == ',' ==> read_members(all) == match read_members(after_value.skip(1)) {
            Some((others, rest)) => Some((seq![Member { key, value }] + others, rest)),
            None => None,
        },
{
}

#[verifier::rlimit(30)]
proof fn lemma_members_read_back(members: Seq<Member>, rest: Seq<char>)
    requires
        members.len() > 0,
        are_writable(members),
    ensures
        read_members(written_members(members) + seq!['}'] + rest) == Some((members, rest)),
        written_members(members).len() > 0,
        written_members(members)[0] == '"',
    decreases members,
{
    let key = members[0].key;
    let value = members[0].value;
    let all = written_members(members) + seq!['}'] + rest;
    let others = members.drop_first();
    let after_value = if members.len() == 1 {
        seq!['}'] + rest
    } else {
        seq![','] + (written_members(others) + seq!['}'] + rest)
    };
    let after_key = seq![':'] + (written(value) + after_value);
    lemma_members_regrouped(
        string_text(key),
        written(value),
        written_members(others),
        rest,
    );
    assert(all == seq!['"'] + (string_text(key) + seq!['"'] + after_key));
    assert(all.skip(1) =~= string_text(key) + seq!['"'] + after_key);
    lemma_string_reads_back(key, after_key);
    assert(after_key.skip(1) =~= written(value) + after_value);
    assert(decreases_to!(members => members[0]));
    lemma_value_reads_back(value, after_value);
    lemma_members_step(all, key, after_key, value, after_value);
    if members.len() == 1 {
        assert(after_value.skip(1) =~= rest);
        assert(members =~= seq![members[0]]);
    } else {
        lemma_members_read_back(others, rest);
        assert(after_value.skip(1) =~= written_members(others) + seq!['}'] + rest);
        assert(members =~= seq![members[0]] + others);
    }
}

} // verus!
