//! The text form of a command-log record.
//!
//! A record is one line: the sequence number in decimal, a `#`, and then
//! either `key=value` for a put or `DEL key` for a delete. A line is read as
//! a put when its body holds a `=` (the key ends at the first one), and as a
//! delete when it does not and starts with `DEL `. Keys therefore hold no
//! `=`, and neither keys nor values hold a line feed or a carriage return.
use vstd::prelude::*;
use vstd::string::{StrSliceExecFns, StringExecFns};

use crate::message::{Command, CommandView};

verus! {

/// Whether `c` is an ASCII decimal digit.
pub open spec fn is_digit(c: char) -> bool {
    '0' <= c && c <= '9'
}

/// The value of a decimal digit.
pub open spec fn digit_value(c: char) -> nat {
    (c as int - '0' as int) as nat
}

/// The digit for `d < 10`.
pub open spec fn digit_char(d: nat) -> char {
    (d + '0' as int) as char
}

/// `n` written in decimal, without leading zeros.
pub open spec fn decimal(n: nat) -> Seq<char>
    decreases n,
{
    if n < 10 {
        seq![digit_char(n)]
    } else {
        decimal(n / 10).push(digit_char(n % 10))
    }
}

/// The number that a string of decimal digits denotes.
pub open spec fn digits_value(s: Seq<char>) -> nat
    decreases s.len(),
{
    if s.len() == 0 {
        0
    } else {
        digits_value(s.drop_last()) * 10 + digit_value(s.last())
    }
}

/// Every character of `s` is a decimal digit.
pub open spec fn all_digits(s: Seq<char>) -> bool {
    forall|i: int| 0 <= i < s.len() ==> #[trigger] is_digit(s[i])
}

/// The tag that starts the body of a delete record.
pub open spec fn delete_tag() -> Seq<char> {
    seq!['D', 'E', 'L', ' ']
}

/// A key can be written to the log and read back.
pub open spec fn storable_key(k: Seq<char>) -> bool {
    !k.contains('=') && !k.contains('\n') && !k.contains('\r')
}

/// A value can be written to the log and read back.
pub open spec fn storable_value(v: Seq<char>) -> bool {
    !v.contains('\n') && !v.contains('\r')
}

/// A mutation whose strings the log can hold.
pub open spec fn storable(c: CommandView) -> bool {
    match c {
        CommandView::Put { key, value } => storable_key(key) && storable_value(value),
        CommandView::Delete { key } => storable_key(key),
        CommandView::Get { .. } => false,
    }
}

/// The part of a record after the `#`.
pub open spec fn record_body(c: CommandView) -> Seq<char> {
    match c {
        CommandView::Put { key, value } => key + seq!['='] + value,
        CommandView::Delete { key } => delete_tag() + key,
        CommandView::Get { .. } => Seq::empty(),
    }
}

/// The line that records mutation `c` under sequence number `n`.
pub open spec fn encode_record(n: nat, c: CommandView) -> Seq<char> {
    decimal(n) + seq!['#'] + record_body(c)
}

/// The mutation a record body denotes, if it is well formed.
pub open spec fn decode_body(body: Seq<char>) -> Option<CommandView> {
    match body.index_of_first('=') {
        Some(e) => Some(CommandView::Put { key: body.take(e), value: body.skip(e + 1) }),
        None => if body.len() >= 4 && body.take(4) == delete_tag() {
            Some(CommandView::Delete { key: body.skip(4) })
        } else {
            None
        },
    }
}

/// The sequence number and mutation a log line records, if it is well formed:
/// a non-empty run of digits whose value fits a `usize`, a `#`, and a body.
pub open spec fn decode_record(line: Seq<char>) -> Option<(nat, CommandView)> {
    match line.index_of_first('#') {
        Some(h) => {
            let digits = line.take(h);
            if digits.len() == 0 || !all_digits(digits) || digits_value(digits) > usize::MAX {
                None
            } else {
                match decode_body(line.skip(h + 1)) {
                    Some(c) => Some((digits_value(digits), c)),
                    None => None,
                }
            }
        },
        None => None,
    }
}

proof fn lemma_decimal(n: nat)
    ensures
        decimal(n).len() > 0,
        all_digits(decimal(n)),
        digits_value(decimal(n)) == n,
    decreases n,
{
    let d = decimal(n);
    if n < 10 {
        assert(d.drop_last() =~= Seq::<char>::empty());
        assert(digit_value(digit_char(n)) == n);
        assert(is_digit(d[0]));
        assert(digits_value(Seq::<char>::empty()) == 0);
        assert(digits_value(d) == digits_value(d.drop_last()) * 10 + digit_value(d.last()));
    } else {
        lemma_decimal(n / 10);
        assert(d.drop_last() =~= decimal(n / 10));
        assert(forall|i: int| 0 <= i < d.len() - 1 ==> d[i] == decimal(n / 10)[i]);
        assert(digit_value(digit_char(n % 10)) == n % 10);
        assert(is_digit(d[d.len() - 1]));
        assert(n == (n / 10) * 10 + n % 10);
        assert(d.last() == digit_char(n % 10));
        assert(digits_value(d) == digits_value(d.drop_last()) * 10 + digit_value(d.last()));
    }
}

/// The first occurrence of `c` in `s` is at `i`.
pub(crate) proof fn lemma_first_at(s: Seq<char>, c: char, i: int)
    requires
        0 <= i < s.len(),
        s[i] == c,
        forall|j: int| 0 <= j < i ==> s[j] != c,
    ensures
        s.index_of_first(c) == Some(i),
{
    s.index_of_first_ensures(c);
    assert(s.contains(c));
    match s.index_of_first(c) {
        Some(k) => {
            if k < i {
                assert(s[k] != c);
            } else if k > i {
                assert(s[i] != c);
            }
        },
        None => {},
    }
}

/// Reading back the line written for a storable mutation gives the same
/// sequence number and mutation.
pub proof fn lemma_record_round_trip(n: nat, c: CommandView)
    requires
        storable(c),
        n <= usize::MAX,
    ensures
        decode_record(encode_record(n, c)) == Some((n, c)),
{
    lemma_decimal(n);
    let d = decimal(n);
    let body = record_body(c);
    let line = encode_record(n, c);
    assert(line[d.len() as int] == '#');
    assert forall|j: int| 0 <= j < d.len() implies line[j] != '#' by {
        assert(line[j] == d[j]);
        assert(is_digit(d[j]));
    }
    lemma_first_at(line, '#', d.len() as int);
    assert(line.take(d.len() as int) =~= d);
    assert(line.skip(d.len() as int + 1) =~= body);
    match c {
        CommandView::Put { key, value } => {
            assert(body[key.len() as int] == '=');
            assert forall|j: int| 0 <= j < key.len() implies body[j] != '=' by {
                assert(body[j] == key[j]);
                if key[j] == '=' {
                    assert(key.contains('='));
                }
            }
            lemma_first_at(body, '=', key.len() as int);
            assert(body.take(key.len() as int) =~= key);
            assert(body.skip(key.len() as int + 1) =~= value);
        },
        CommandView::Delete { key } => {
            body.index_of_first_ensures('=');
            if body.contains('=') {
                let j = choose|j: int| 0 <= j < body.len() && body[j] == '=';
                if j >= 4 {
                    assert(key[j - 4] == '=');
                    assert(key.contains('='));
                }
            }
            assert(body.take(4) =~= delete_tag());
            assert(body.skip(4) =~= key);
        },
        CommandView::Get { .. } => {},
    }
}

/// Appends the decimal digits of `n` to `out`.
fn push_decimal(out: &mut String, n: usize)
    ensures
        final(out)@ == old(out)@ + decimal(n as nat),
    decreases n,
{
    if n >= 10 {
        push_decimal(out, n / 10);
    }
    let d = n % 10;
    let digit: &str = match d {
        0 => "0",
        1 => "1",
        2 => "2",
        3 => "3",
        4 => "4",
        5 => "5",
        6 => "6",
        7 => "7",
        8 => "8",
        _ => "9",
    };
    proof {
        reveal_strlit("0");
        reveal_strlit("1");
        reveal_strlit("2");
        reveal_strlit("3");
        reveal_strlit("4");
        reveal_strlit("5");
        reveal_strlit("6");
        reveal_strlit("7");
        reveal_strlit("8");
        reveal_strlit("9");
        assert(digit@ =~= seq![digit_char(d as nat)]);
    }
    out.append(digit);
    proof {
        if n >= 10 {
            assert(decimal(n as nat) =~= decimal((n / 10) as nat).push(digit_char((n % 10) as nat)));
        }
    }
}

/// The log line for `command` under sequence number `sequence`.
pub fn encode_line(sequence: usize, command: &Command) -> (r: String)
    requires
        command@.is_mutation(),
    ensures
        r@ == encode_record(sequence as nat, command@),
{
    let mut out = String::new();
    push_decimal(&mut out, sequence);
    proof {
        reveal_strlit("#");
        reveal_strlit("=");
        reveal_strlit("DEL ");
    }
    out.append("#");
    match command {
        Command::Put { key, value } => {
            out.append(key.as_str());
            out.append("=");
            out.append(value.as_str());
        },
        Command::Delete { key } => {
            out.append("DEL ");
            out.append(key.as_str());
        },
        Command::Get { .. } => {},
    }
    proof {
        assert(out@ =~= encode_record(sequence as nat, command@));
    }
    out
}

/// The characters of `s`, in order.
pub(crate) fn chars_of(s: &str) -> (r: Vec<char>)
    ensures
        r@ == s@,
{
    let mut out: Vec<char> = Vec::new();
    for c in it: s.chars()
        invariant
            out@ == it.seq().take(it.index() as int),
    {
        out.push(c);
    }
    assert(out@ =~= s@);
    out
}

/// The first position at or after `from` where `c` occurs in `s`.
pub(crate) fn find_char(s: &Vec<char>, c: char, from: usize) -> (r: Option<usize>)
    requires
        from <= s.len(),
    ensures
        match r {
            Some(i) => from <= i < s.len() && s@[i as int] == c && forall|j: int|
                from <= j < i ==> s@[j] != c,
            None => forall|j: int| from <= j < s.len() ==> s@[j] != c,
        },
{
    let mut i = from;
    while i < s.len()
        invariant
            from <= i <= s.len(),
            forall|j: int| from <= j < i ==> s@[j] != c,
        decreases s.len() - i,
    {
        if s[i] == c {
            return Some(i);
        }
        i = i + 1;
    }
    None
}

proof fn lemma_digits_value_grows(s: Seq<char>, i: int)
    requires
        0 <= i <= s.len(),
    ensures
        digits_value(s.take(i)) <= digits_value(s),
    decreases s.len() - i,
{
    if i < s.len() {
        lemma_digits_value_grows(s, i + 1);
        assert(s.take(i + 1).drop_last() =~= s.take(i));
    } else {
        assert(s.take(i) =~= s);
    }
}

/// The value of the digits `s[0..end]`, or `None` when one of them is not a
/// digit, when there are none, or when the value exceeds `usize::MAX`.
fn parse_digits(s: &Vec<char>, end: usize) -> (r: Option<usize>)
    requires
        end <= s.len(),
    ensures
        ({
            let d = s@.take(end as int);
            match r {
                Some(v) => d.len() > 0 && all_digits(d) && digits_value(d) <= usize::MAX && v
                    == digits_value(d),
                None => d.len() == 0 || !all_digits(d) || digits_value(d) > usize::MAX,
            }
        }),
{
    let ghost d = s@.take(end as int);
    if end == 0 {
        return None;
    }
    let mut value: usize = 0;
    let mut i: usize = 0;
    while i < end
        invariant
            0 <= i <= end <= s.len(),
            d == s@.take(end as int),
            forall|j: int| 0 <= j < i ==> is_digit(#[trigger] s@[j]),
            value == digits_value(s@.take(i as int)),
        decreases end - i,
    {
        let c = s[i];
        assert(s@.take(i + 1).drop_last() =~= s@.take(i as int));
        if !('0' <= c && c <= '9') {
            proof {
                assert(!is_digit(d[i as int]));
            }
            return None;
        }
        let digit = (c as u32 - '0' as u32) as usize;
        let next = match value.checked_mul(10) {
            Some(t) => t.checked_add(digit),
            None => None,
        };
        match next {
            Some(v) => {
                value = v;
            },
            None => {
                proof {
                    assert(d.take(i + 1) =~= s@.take(i + 1));
                    lemma_digits_value_grows(d, i + 1);
                }
                return None;
            },
        }
        i = i + 1;
    }
    assert(s@.take(i as int) =~= d);
    Some(value)
}

/// The sequence number and mutation recorded by a log line, or `None` for a
/// line that is not a well-formed record.
pub fn decode_line(line: &str) -> (r: Option<(usize, Command)>)
    ensures
        match r {
            Some((n, c)) => decode_record(line@) == Some((n as nat, c@)),
            None => decode_record(line@) is None,
        },
{
    let chars = chars_of(line);
    let ghost l = line@;
    let hash = match find_char(&chars, '#', 0) {
        Some(h) => h,
        None => {
            proof {
                l.index_of_first_ensures('#');
            }
            return None;
        },
    };
    proof {
        lemma_first_at(l, '#', hash as int);
    }
    let sequence = match parse_digits(&chars, hash) {
        Some(v) => v,
        None => return None,
    };
    let start = hash + 1;
    let ghost body = l.skip(start as int);
    let command = match find_char(&chars, '=', start) {
        Some(e) => {
            proof {
                lemma_first_at(body, '=', e - start);
            }
            let key = String::from_str(line.substring_char(start, e));
            let value = String::from_str(line.substring_char(e + 1, chars.len()));
            proof {
                assert(key@ =~= body.take(e - start));
                assert(value@ =~= body.skip(e - start + 1));
            }
            Command::Put { key, value }
        },
        None => {
            proof {
                body.index_of_first_ensures('=');
                if body.contains('=') {
                    let j = choose|j: int| 0 <= j < body.len() && body[j] == '=';
                    assert(chars@[start + j] == '=');
                }
                reveal_strlit("DEL ");
            }
            if chars.len() - start >= 4 && chars[start] == 'D' && chars[start + 1] == 'E'
                && chars[start + 2] == 'L' && chars[start + 3] == ' ' {
                let key = String::from_str(line.substring_char(start + 4, chars.len()));
                proof {
                    assert(body.take(4) =~= delete_tag());
                    assert(key@ =~= body.skip(4));
                }
                Command::Delete { key }
            } else {
                proof {
                    if body.len() >= 4 && body.take(4) == delete_tag() {
                        assert(body.take(4)[0] == chars@[start as int]);
                        assert(body.take(4)[1] == chars@[start + 1]);
                        assert(body.take(4)[2] == chars@[start + 2]);
                        assert(body.take(4)[3] == chars@[start + 3]);
                    }
                }
                return None;
            }
        },
    };
    Some((sequence, command))
}

/// Whether the log can hold `command`: a put or a delete whose key holds no
/// `=` and whose strings hold no line break.
pub fn is_storable(command: &Command) -> (r: bool)
    ensures
        r == storable(command@),
{
    match command {
        Command::Put { key, value } => {
            let k = chars_of(key.as_str());
            let v = chars_of(value.as_str());
            let ok_key = find_char(&k, '=', 0).is_none() && find_char(&k, '\n', 0).is_none()
                && find_char(&k, '\r', 0).is_none();
            let ok_value = find_char(&v, '\n', 0).is_none() && find_char(&v, '\r', 0).is_none();
            ok_key && ok_value
        },
        Command::Delete { key } => {
            let k = chars_of(key.as_str());
            find_char(&k, '=', 0).is_none() && find_char(&k, '\n', 0).is_none() && find_char(
                &k,
                '\r',
                0,
            ).is_none()
        },
        Command::Get { .. } => false,
    }
}

} // verus!
