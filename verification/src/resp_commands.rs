//! Commands in the wire format, and how they are written in a log.

use vstd::prelude::*;

use crate::text::{before_first, decimal, join, push_decimal, string_texts};

verus! {

/// `*`, which begins a command.
pub const COMMAND_PREFIX: u8 = 42;

/// `$`, which begins an argument.
pub const ARGUMENT_PREFIX: u8 = 36;

/// `\r`, the first byte of a line's end.
pub const CR: u8 = 13;

/// `\n`, the second byte of a line's end.
pub const LF: u8 = 10;

/// Whether `bytes` begin with a line's end.
pub open spec fn begins_with_line_end(bytes: Seq<u8>) -> bool {
    bytes.len() >= 2 && bytes[0] == CR && bytes[1] == LF
}

/// Whether `b` is an ASCII digit.
pub open spec fn is_digit_byte(b: u8) -> bool {
    48 <= b <= 57
}

/// The number that `digits` write.
pub open spec fn digits_value(digits: Seq<u8>) -> nat
    decreases digits.len(),
{
    if digits.len() == 0 {
        0
    } else {
        10 * digits_value(digits.drop_last()) + (digits.last() - 48) as nat
    }
}

/// The digits of a written number, which a plus sign may precede.
pub open spec fn unsigned_digits(text: Seq<u8>) -> Seq<u8> {
    if text.len() > 0 && text[0] == 43 {
        text.skip(1)
    } else {
        text
    }
}

/// The number that `text` writes, if it writes one in the range of `usize`.
pub open spec fn written_number(text: Seq<u8>) -> Option<usize> {
    let digits = unsigned_digits(text);
    if digits.len() > 0 && (forall|i: int|
        0 <= i < digits.len() ==> is_digit_byte(#[trigger] digits[i])) && digits_value(digits)
        <= usize::MAX {
        Some(digits_value(digits) as usize)
    } else {
        None
    }
}

/// Reads `<prefix><number>\r\n`: the number, where this is what `bytes` begin with, and the
/// bytes that are left. Where it is not, reading stops before the first carriage return.
pub open spec fn header(bytes: Seq<u8>, prefix: u8) -> (Option<usize>, Seq<u8>) {
    if bytes.len() == 0 || bytes[0] != prefix {
        (None, bytes)
    } else {
        let body = bytes.skip(1);
        let len = before_first(body, CR);
        let rest = body.skip(len as int);
        let number = written_number(body.take(len as int));
        if number is Some && begins_with_line_end(rest) {
            (number, rest.skip(2))
        } else {
            (None, rest)
        }
    }
}

/// Reads `$<length>\r\n<bytes>\r\n`: the bytes, where this is what `bytes` begin with, and
/// what is left.
pub open spec fn argument(bytes: Seq<u8>) -> (Option<Seq<u8>>, Seq<u8>) {
    match header(bytes, ARGUMENT_PREFIX) {
        (Some(len), rest) => if len > rest.len() {
            (None, rest)
        } else if begins_with_line_end(rest.skip(len as int)) {
            (Some(rest.take(len as int)), rest.skip(len as int).skip(2))
        } else {
            (None, rest.skip(len as int))
        },
        (None, rest) => (None, rest),
    }
}

/// Reads `count` arguments, and what is left.
pub open spec fn arguments(bytes: Seq<u8>, count: nat) -> (Option<Seq<Seq<u8>>>, Seq<u8>)
    decreases count,
{
    if count == 0 {
        (Some(Seq::empty()), bytes)
    } else {
        match argument(bytes) {
            (Some(first), rest) => match arguments(rest, (count - 1) as nat) {
                (Some(others), rest) => (Some(seq![first] + others), rest),
                (None, rest) => (None, rest),
            },
            (None, rest) => (None, rest),
        }
    }
}

/// Reads a command: its arguments, and what is left.
pub open spec fn command(bytes: Seq<u8>) -> (Option<Seq<Seq<u8>>>, Seq<u8>) {
    match header(bytes, COMMAND_PREFIX) {
        (Some(count), rest) => arguments(rest, count as nat),
        (None, rest) => (None, rest),
    }
}

/// The digit of a number below sixteen.
pub open spec fn hex_digit(n: nat) -> char {
    if n < 10 {
        (48 + n) as char
    } else {
        (87 + n) as char
    }
}

/// How a byte is written between quotes.
pub open spec fn escaped_byte(b: u8) -> Seq<char> {
    if b == 92 {
        seq!['\\', '\\']
    } else if b == 34 {
        seq!['\\', '"']
    } else if b == LF {
        seq!['\\', 'n']
    } else if b == CR {
        seq!['\\', 'r']
    } else if b == 9 {
        seq!['\\', 't']
    } else if 32 <= b <= 126 {
        seq![b as char]
    } else {
        seq!['\\', 'x', hex_digit((b / 16) as nat), hex_digit((b % 16) as nat)]
    }
}

/// How bytes are written between quotes.
pub open spec fn escaped(bytes: Seq<u8>) -> Seq<char>
    decreases bytes.len(),
{
    if bytes.len() == 0 {
        Seq::empty()
    } else {
        escaped(bytes.drop_last()) + escaped_byte(bytes.last())
    }
}

/// An argument as it is written in a log.
pub open spec fn quoted(bytes: Seq<u8>) -> Seq<char> {
    seq!['"'] + escaped(bytes) + seq!['"']
}

/// A command as it is written in a log: its arguments in quotes, with spaces between them.
pub open spec fn command_line(arguments: Seq<Seq<u8>>) -> Seq<char> {
    join(arguments.map_values(|bytes: Seq<u8>| quoted(bytes)), seq![' '])
}

/// The line for a rest of `count` bytes that is no command.
pub open spec fn unparsed_line(count: nat) -> Seq<char> {
    "<unparsed "@ + decimal(count) + " bytes>"@
}

/// A command takes at least one byte.
pub proof fn lemma_command_shortens(bytes: Seq<u8>)
    ensures
        command(bytes).1.len() <= bytes.len(),
        command(bytes).0 is Some ==> command(bytes).1.len() < bytes.len(),
{
    lemma_header_shortens(bytes, COMMAND_PREFIX);
    if let (Some(count), rest) = header(bytes, COMMAND_PREFIX) {
        lemma_arguments_shorten(rest, count as nat);
    }
}

proof fn lemma_before_first<T>(items: Seq<T>, item: T)
    ensures
        before_first(items, item) <= items.len(),
        before_first(items, item) < items.len() ==> items[before_first(items, item) as int] == item,
        forall|i: int| 0 <= i < before_first(items, item) ==> items[i] != item,
    decreases items.len(),
{
    if items.len() > 0 && items[0] != item {
        let rest = items.drop_first();
        lemma_before_first(rest, item);
        assert forall|i: int| 0 <= i < before_first(items, item) implies items[i] != item by {
            if i > 0 {
                assert(rest[i - 1] == items[i]);
            }
        }
    }
}

proof fn lemma_header_shortens(bytes: Seq<u8>, prefix: u8)
    ensures
        header(bytes, prefix).1.len() <= bytes.len(),
        header(bytes, prefix).0 is Some ==> header(bytes, prefix).1.len() < bytes.len(),
{
    if bytes.len() > 0 {
        lemma_before_first(bytes.skip(1), CR);
    }
}

proof fn lemma_arguments_shorten(bytes: Seq<u8>, count: nat)
    ensures
        arguments(bytes, count).1.len() <= bytes.len(),
    decreases count,
{
    if count > 0 {
        lemma_header_shortens(bytes, ARGUMENT_PREFIX);
        if argument(bytes).0 is Some {
            lemma_arguments_shorten(argument(bytes).1, (count - 1) as nat);
        }
    }
}

/// The log's lines for a payload: one for each command, up to the first byte that belongs
/// to none, and one for what is left unread there.
pub open spec fn log_lines(bytes: Seq<u8>) -> Seq<Seq<char>>
    decreases bytes.len(),
{
    if bytes.len() == 0 {
        Seq::empty()
    } else {
        proof {
            lemma_command_shortens(bytes);
        }
        match command(bytes) {
            (Some(arguments), rest) => seq![command_line(arguments)] + log_lines(rest),
            (None, rest) => seq![unparsed_line(rest.len())],
        }
    }
}

/// What stands in `buf` from `pos` on.
pub open spec fn rest_at(buf: Seq<u8>, pos: int) -> Seq<u8> {
    if pos <= buf.len() {
        buf.skip(pos)
    } else {
        Seq::empty()
    }
}

/// Where reading stands in `buf` when it began at `pos` and has left `rest`.
pub open spec fn stands_at(buf: Seq<u8>, pos: int, rest: Seq<u8>) -> int {
    if pos <= buf.len() {
        buf.len() - rest.len()
    } else {
        pos
    }
}

/// The number that `text` writes.
fn parse_number(text: &[u8]) -> (number: Option<usize>)
    ensures
        number == written_number(text@),
{
    let start: usize = if text.len() > 0 && text[0] == 43 {
        1
    } else {
        0
    };
    let ghost digits = unsigned_digits(text@);
    assert(digits =~= text@.skip(start as int));
    if start == text.len() {
        return None;
    }
    let mut number: usize = 0;
    assert(digits.take(0) =~= Seq::<u8>::empty());
    for i in start..text.len()
        invariant
            start < text@.len(),
            digits == unsigned_digits(text@),
            digits == text@.skip(start as int),
            number == digits_value(digits.take(i - start)),
            forall|j: int| 0 <= j < i - start ==> is_digit_byte(#[trigger] digits[j]),
    {
        let b: u8 = text[i];
        let ghost next = digits.take(i + 1 - start);
        assert(next.drop_last() =~= digits.take(i - start));
        assert(digits[i - start] == b);
        if b < 48 || b > 57 {
            return None;
        }
        proof {
            lemma_digits_value_grows(digits, i + 1 - start);
        }
        let tens: usize = match number.checked_mul(10) {
            Some(tens) => tens,
            None => {
                return None;
            },
        };
        number = match tens.checked_add((b - 48) as usize) {
            Some(number) => number,
            None => {
                return None;
            },
        };
    }
    assert(digits.take(digits.len() as int) =~= digits);
    Some(number)
}

proof fn lemma_digits_value_grows(digits: Seq<u8>, n: int)
    requires
        0 <= n <= digits.len(),
    ensures
        digits_value(digits.take(n)) <= digits_value(digits),
    decreases digits.len() - n,
{
    if n == digits.len() {
        assert(digits.take(n) =~= digits);
    } else {
        lemma_digits_value_grows(digits, n + 1);
        assert(digits.take(n + 1).drop_last() =~= digits.take(n));
    }
}

/// Whether `buf` holds a line's end at `pos`.
fn line_end_at(buf: &[u8], pos: usize) -> (found: bool)
    requires
        pos <= buf@.len(),
    ensures
        found == begins_with_line_end(buf@.skip(pos as int)),
{
    buf.len() - pos >= 2 && buf[pos] == CR && buf[pos + 1] == LF
}

/// Reads a `<prefix><number>\r\n` header, advancing `pos` past it.
pub fn read_count(buf: &[u8], pos: &mut usize, prefix: u8) -> (count: Option<usize>)
    ensures
        count == header(rest_at(buf@, *old(pos) as int), prefix).0,
        rest_at(buf@, *final(pos) as int) == header(rest_at(buf@, *old(pos) as int), prefix).1,
        *final(pos) == stands_at(
            buf@,
            *old(pos) as int,
            header(rest_at(buf@, *old(pos) as int), prefix).1,
        ),
{
    if *pos >= buf.len() || buf[*pos] != prefix {
        return None;
    }
    let start: usize = *pos + 1;
    let ghost body = buf@.skip(start as int);
    assert(rest_at(buf@, *old(pos) as int).skip(1) =~= body);
    let mut end: usize = start;
    assert(buf@.skip(end as int) =~= body);
    while end < buf.len() && buf[end] != CR
        invariant
            start <= end <= buf@.len(),
            body == buf@.skip(start as int),
            before_first(body, CR) == (end - start) + before_first(buf@.skip(end as int), CR),
        decreases buf@.len() - end,
    {
        assert(buf@.skip(end as int).drop_first() =~= buf@.skip(end + 1));
        end = end + 1;
    }
    *pos = end;
    let ghost len = before_first(body, CR) as int;
    assert(len == end - start);
    assert(body.skip(len) =~= buf@.skip(end as int));
    let digits = vstd::slice::slice_subrange(buf, start, end);
    assert(digits@ =~= body.take(len));
    let number = match parse_number(digits) {
        Some(number) => number,
        None => {
            return None;
        },
    };
    if !line_end_at(buf, end) {
        return None;
    }
    *pos = end + 2;
    assert(buf@.skip(end as int).skip(2) =~= buf@.skip(end + 2));
    Some(number)
}

/// Appends the two digits of `b` in base sixteen.
pub fn push_hex_byte(out: &mut String, b: u8)
    ensures
        final(out)@ == old(out)@.push(hex_digit((b / 16) as nat)).push(hex_digit((b % 16) as nat)),
{
    out.push(hex_char(b / 16));
    out.push(hex_char(b % 16));
}

/// The digit of a number below sixteen.
fn hex_char(n: u8) -> (c: char)
    requires
        n < 16,
    ensures
        c == hex_digit(n as nat),
{
    if n < 10 {
        (48 + n) as char
    } else {
        (87 + n) as char
    }
}

/// Append `arg` to `out` as a double-quoted, escaped string, matching the style of
/// redis' `MONITOR` output.
pub fn quote_arg(arg: &[u8], out: &mut String)
    ensures
        final(out)@ == old(out)@ + quoted(arg@),
{
    out.push('"');
    assert(out@ =~= old(out)@ + seq!['"'] + escaped(arg@.take(0)));
    for i in 0..arg.len()
        invariant
            out@ == old(out)@ + seq!['"'] + escaped(arg@.take(i as int)),
    {
        let b: u8 = arg[i];
        let ghost before = out@;
        assert(arg@.take(i + 1).drop_last() =~= arg@.take(i as int));
        if b == 92 {
            out.push('\\');
            out.push('\\');
        } else if b == 34 {
            out.push('\\');
            out.push('"');
        } else if b == LF {
            out.push('\\');
            out.push('n');
        } else if b == CR {
            out.push('\\');
            out.push('r');
        } else if b == 9 {
            out.push('\\');
            out.push('t');
        } else if 32 <= b && b <= 126 {
            out.push(b as char);
        } else {
            out.push('\\');
            out.push('x');
            push_hex_byte(out, b);
        }
        assert(out@ =~= before + escaped_byte(b));
        assert(out@ =~= old(out)@ + seq!['"'] + escaped(arg@.take(i + 1)));
    }
    assert(arg@.take(arg@.len() as int) =~= arg@);
    out.push('"');
    assert(out@ =~= old(out)@ + quoted(arg@));
}

/// Decode a single `*<argc>\r\n($<len>\r\n<bytes>\r\n)*` command starting at `*pos`,
/// advancing `pos` past it. Returns the quoted, space-joined arguments.
pub fn decode_one_command(buf: &[u8], pos: &mut usize) -> (line: Option<String>)
    ensures
        match line {
            Some(line) => command(rest_at(buf@, *old(pos) as int)).0 is Some && line@
                == command_line(command(rest_at(buf@, *old(pos) as int)).0->0),
            None => command(rest_at(buf@, *old(pos) as int)).0 is None,
        },
        rest_at(buf@, *final(pos) as int) == command(rest_at(buf@, *old(pos) as int)).1,
        *final(pos) == stands_at(
            buf@,
            *old(pos) as int,
            command(rest_at(buf@, *old(pos) as int)).1,
        ),
{
    let ghost whole = rest_at(buf@, *old(pos) as int);
    let argc: usize = match read_count(buf, pos, COMMAND_PREFIX) {
        Some(argc) => argc,
        None => {
            return None;
        },
    };
    proof {
        lemma_header_shortens(whole, COMMAND_PREFIX);
    }
    let mut out = String::new();
    let ghost quote = |bytes: Seq<u8>| quoted(bytes);
    let ghost mut done: Seq<Seq<u8>> = Seq::empty();
    assert(done.map_values(quote) =~= Seq::<Seq<char>>::empty());
    assert(out@ =~= command_line(done));
    proof {
        let first = rest_at(buf@, *pos as int);
        if arguments(first, argc as nat).0 is Some {
            assert(done + arguments(first, argc as nat).0->0 =~= arguments(first, argc as nat).0->0);
        }
    }
    for i in 0..argc
        invariant
            quote == (|bytes: Seq<u8>| quoted(bytes)),
            *pos <= buf@.len(),
            *old(pos) <= buf@.len(),
            done.len() == i,
            out@ == command_line(done),
            whole == rest_at(buf@, *old(pos) as int),
            match arguments(rest_at(buf@, *pos as int), (argc - i) as nat) {
                (Some(others), rest) => command(whole) == (Some(done + others), rest),
                (None, rest) => command(whole) == (None::<Seq<Seq<u8>>>, rest),
            },
    {
        let ghost here = rest_at(buf@, *pos as int);
        let len: usize = match read_count(buf, pos, ARGUMENT_PREFIX) {
            Some(len) => len,
            None => {
                return None;
            },
        };
        proof {
            lemma_header_shortens(here, ARGUMENT_PREFIX);
        }
        let start: usize = *pos;
        let ghost rest = buf@.skip(start as int);
        if len > buf.len() - start {
            return None;
        }
        let end: usize = start + len;
        let arg = vstd::slice::slice_subrange(buf, start, end);
        assert(arg@ =~= rest.take(len as int));
        assert(rest.skip(len as int) =~= buf@.skip(end as int));
        *pos = end;
        if !line_end_at(buf, end) {
            return None;
        }
        *pos = end + 2;
        assert(buf@.skip(end as int).skip(2) =~= buf@.skip(end + 2));
        let ghost before = done;
        let ghost line = out@;
        if i > 0 {
            out.push(' ');
        }
        quote_arg(arg, &mut out);
        proof {
            done = before.push(arg@);
            let parts = done.map_values(quote);
            assert(parts.drop_last() =~= before.map_values(quote));
            assert(parts.last() == quoted(arg@));
            if i > 0 {
                assert(out@ =~= line + seq![' '] + quoted(arg@));
            } else {
                assert(line =~= Seq::<char>::empty());
                assert(out@ =~= quoted(arg@));
            }
            assert(out@ == command_line(done));
            match arguments(rest_at(buf@, *pos as int), (argc - i - 1) as nat) {
                (Some(others), left) => {
                    assert(before + (seq![arg@] + others) =~= done + others);
                },
                (None, left) => {},
            }
        }
    }
    assert(done + Seq::<Seq<u8>>::empty() =~= done);
    Some(out)
}

/// Decode a RESP payload of one or more commands into MONITOR-style, quoted strings.
///
/// Each returned element corresponds to a single command, e.g. `"SET" "foo" "bar"`.
/// If the payload cannot be fully decoded, whatever was decoded so far is returned plus a
/// marker line.
pub fn decode_commands(packed: &[u8]) -> (lines: Vec<String>)
    ensures
        string_texts(lines@) == log_lines(packed@),
{
    let mut commands: Vec<String> = Vec::new();
    let mut pos: usize = 0;
    assert(rest_at(packed@, 0) =~= packed@);
    assert(string_texts(commands@) + log_lines(packed@) =~= log_lines(packed@));
    while pos < packed.len()
        invariant
            pos <= packed@.len(),
            string_texts(commands@) + log_lines(rest_at(packed@, pos as int)) == log_lines(packed@),
        decreases packed@.len() - pos,
    {
        let ghost here = rest_at(packed@, pos as int);
        let ghost done = string_texts(commands@);
        proof {
            lemma_command_shortens(here);
        }
        match decode_one_command(packed, &mut pos) {
            Some(line) => {
                let ghost text = line@;
                commands.push(line);
                proof {
                    assert(string_texts(commands@) =~= done.push(text));
                    assert(done + log_lines(here) =~= done.push(text) + log_lines(
                        rest_at(packed@, pos as int),
                    ));
                }
            },
            None => {
                let mut marker = "<unparsed ".to_owned();
                push_decimal(&mut marker, (packed.len() - pos) as u64);
                marker.append(" bytes>");
                let ghost text = marker@;
                commands.push(marker);
                assert(string_texts(commands@) =~= done.push(text));
                assert(done + log_lines(here) =~= done.push(text));
                return commands;
            },
        }
    }
    assert(log_lines(rest_at(packed@, pos as int)) =~= Seq::<Seq<char>>::empty());
    assert(string_texts(commands@) =~= log_lines(packed@));
    commands
}

} // verus!
