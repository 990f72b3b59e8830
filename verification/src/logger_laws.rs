//! What holds of every logged command.

use vstd::prelude::*;

use crate::command_logger::file_line;
use crate::resp_commands::{
    argument, arguments, begins_with_line_end, command, command_line, digits_value, escaped,
    escaped_byte, header, hex_digit, is_digit_byte, lemma_command_shortens, log_lines, quoted,
    unparsed_line, unsigned_digits, written_number, ARGUMENT_PREFIX, COMMAND_PREFIX, CR, LF,
};
use crate::text::{before_first, decimal, is_digit, join};

verus! {

/// A number in decimal digits.
pub open spec fn number_bytes(n: nat) -> Seq<u8>
    decreases n,
{
    if n < 10 {
        seq![(48 + n) as u8]
    } else {
        number_bytes(n / 10).push((48 + n % 10) as u8)
    }
}

/// The end of a line.
pub open spec fn line_end() -> Seq<u8> {
    seq![CR, LF]
}

/// A header with a number, in the wire format.
pub open spec fn encoded_header(prefix: u8, n: nat) -> Seq<u8> {
    seq![prefix] + number_bytes(n) + line_end()
}

/// An argument in the wire format.
pub open spec fn encoded_argument(bytes: Seq<u8>) -> Seq<u8> {
    encoded_header(ARGUMENT_PREFIX, bytes.len()) + bytes + line_end()
}

/// Arguments in the wire format.
pub open spec fn encoded_arguments(arguments: Seq<Seq<u8>>) -> Seq<u8>
    decreases arguments.len(),
{
    if arguments.len() == 0 {
        Seq::empty()
    } else {
        encoded_argument(arguments[0]) + encoded_arguments(arguments.drop_first())
    }
}

/// A command in the wire format.
pub open spec fn encoded_command(arguments: Seq<Seq<u8>>) -> Seq<u8> {
    encoded_header(COMMAND_PREFIX, arguments.len()) + encoded_arguments(arguments)
}

/// Commands in the wire format.
pub open spec fn encoded_commands(commands: Seq<Seq<Seq<u8>>>) -> Seq<u8>
    decreases commands.len(),
{
    if commands.len() == 0 {
        Seq::empty()
    } else {
        encoded_command(commands[0]) + encoded_commands(commands.drop_first())
    }
}

/// Whether a machine can hold the command.
pub open spec fn fits_in_memory(arguments: Seq<Seq<u8>>) -> bool {
    arguments.len() <= usize::MAX && forall|i: int|
        0 <= i < arguments.len() ==> (#[trigger] arguments[i]).len() <= usize::MAX
}

pub proof fn lemma_number_bytes(n: nat)
    ensures
        number_bytes(n).len() > 0,
        forall|i: int|
            0 <= i < number_bytes(n).len() ==> is_digit_byte(#[trigger] number_bytes(n)[i]),
        digits_value(number_bytes(n)) == n,
    decreases n,
{
    let bytes = number_bytes(n);
    if n < 10 {
        assert(bytes.drop_last() =~= Seq::<u8>::empty());
        assert(digits_value(bytes.drop_last()) == 0);
    } else {
        lemma_number_bytes(n / 10);
        assert(bytes.drop_last() =~= number_bytes(n / 10));
        assert forall|i: int| 0 <= i < bytes.len() implies is_digit_byte(#[trigger] bytes[i]) by {
            if i < bytes.len() - 1 {
                assert(bytes[i] == number_bytes(n / 10)[i]);
            }
        }
    }
}

proof fn lemma_before_first_of(bytes: Seq<u8>, rest: Seq<u8>)
    requires
        forall|i: int| 0 <= i < bytes.len() ==> bytes[i] != CR,
        rest.len() > 0,
        rest[0] == CR,
    ensures
        before_first(bytes + rest, CR) == bytes.len(),
    decreases bytes.len(),
{
    let all = bytes + rest;
    if bytes.len() == 0 {
        assert(all =~= rest);
    } else {
        assert(all.drop_first() =~= bytes.drop_first() + rest);
        lemma_before_first_of(bytes.drop_first(), rest);
    }
}

pub proof fn lemma_header_read(prefix: u8, n: nat, rest: Seq<u8>)
    requires
        n <= usize::MAX,
    ensures
        header(encoded_header(prefix, n) + rest, prefix) == (Some(n as usize), rest),
{
    let digits = number_bytes(n);
    let all = encoded_header(prefix, n) + rest;
    let body = digits + (line_end() + rest);
    lemma_number_bytes(n);
    assert(all.skip(1) =~= body);
    assert forall|i: int| 0 <= i < digits.len() implies digits[i] != CR by {
        assert(is_digit_byte(digits[i]));
    }
    lemma_before_first_of(digits, line_end() + rest);
    assert(body.take(digits.len() as int) =~= digits);
    assert(body.skip(digits.len() as int) =~= line_end() + rest);
    assert((line_end() + rest).skip(2) =~= rest);
    assert(is_digit_byte(digits[0]));
    assert(unsigned_digits(digits) == digits);
    assert(written_number(digits) == Some(n as usize));
    assert(begins_with_line_end(line_end() + rest));
}

pub proof fn lemma_argument_read(bytes: Seq<u8>, rest: Seq<u8>)
    requires
        bytes.len() <= usize::MAX,
    ensures
        argument(encoded_argument(bytes) + rest) == (Some(bytes), rest),
{
    let behind = bytes + (line_end() + rest);
    assert(encoded_argument(bytes) + rest =~= encoded_header(ARGUMENT_PREFIX, bytes.len())
        + behind);
    lemma_header_read(ARGUMENT_PREFIX, bytes.len(), behind);
    assert(behind.take(bytes.len() as int) =~= bytes);
    assert(behind.skip(bytes.len() as int) =~= line_end() + rest);
    assert((line_end() + rest).skip(2) =~= rest);
}

pub proof fn lemma_arguments_read(all: Seq<Seq<u8>>, rest: Seq<u8>)
    requires
        fits_in_memory(all),
    ensures
        arguments(encoded_arguments(all) + rest, all.len()) == (Some(all), rest),
    decreases all.len(),
{
    if all.len() == 0 {
        assert(encoded_arguments(all) + rest =~= rest);
        assert(all =~= Seq::<Seq<u8>>::empty());
    } else {
        let others = all.drop_first();
        let behind = encoded_arguments(others) + rest;
        assert(encoded_arguments(all) + rest =~= encoded_argument(all[0]) + behind);
        assert(fits_in_memory(others)) by {
            assert forall|i: int| 0 <= i < others.len() implies (#[trigger] others[i]).len()
                <= usize::MAX by {
                assert(others[i] == all[i + 1]);
            }
        }
        lemma_argument_read(all[0], behind);
        lemma_arguments_read(others, rest);
        assert(seq![all[0]] + others =~= all);
    }
}

/// What is logged of commands in the wire format is each of them, in order, and then what
/// is logged of the bytes behind them.
pub proof fn law_commands_are_logged(commands: Seq<Seq<Seq<u8>>>, rest: Seq<u8>)
    requires
        forall|i: int| 0 <= i < commands.len() ==> fits_in_memory(#[trigger] commands[i]),
    ensures
        log_lines(encoded_commands(commands) + rest) == commands.map_values(
            |arguments: Seq<Seq<u8>>| command_line(arguments),
        ) + log_lines(rest),
    decreases commands.len(),
{
    let line = |arguments: Seq<Seq<u8>>| command_line(arguments);
    if commands.len() == 0 {
        assert(encoded_commands(commands) + rest =~= rest);
        assert(commands.map_values(line) + log_lines(rest) =~= log_lines(rest));
    } else {
        let first = commands[0];
        let others = commands.drop_first();
        let behind = encoded_commands(others) + rest;
        let all = encoded_commands(commands) + rest;
        assert(fits_in_memory(first));
        assert(all =~= encoded_header(COMMAND_PREFIX, first.len()) + (encoded_arguments(first)
            + behind));
        lemma_header_read(COMMAND_PREFIX, first.len(), encoded_arguments(first) + behind);
        lemma_arguments_read(first, behind);
        assert(command(all) == (Some(first), behind));
        lemma_command_shortens(all);
        assert forall|i: int| 0 <= i < others.len() implies fits_in_memory(
            #[trigger] others[i],
        ) by {
            assert(others[i] == commands[i + 1]);
        }
        law_commands_are_logged(others, rest);
        assert(commands.map_values(line) =~= seq![line(first)] + others.map_values(line));
        assert(log_lines(all) =~= commands.map_values(line) + log_lines(rest));
    }
}

/// Whether `c` is an ASCII character that takes up room on a line.
pub open spec fn is_printable(c: char) -> bool {
    ' ' <= c <= '~'
}

/// Whether every character of `text` is printable.
pub open spec fn all_printable(text: Seq<char>) -> bool {
    forall|i: int| 0 <= i < text.len() ==> is_printable(#[trigger] text[i])
}

proof fn lemma_printable_concat(a: Seq<char>, b: Seq<char>)
    requires
        all_printable(a),
        all_printable(b),
    ensures
        all_printable(a + b),
{
    assert forall|i: int| 0 <= i < (a + b).len() implies is_printable(#[trigger] (a + b)[i]) by {
        if i < a.len() {
            assert((a + b)[i] == a[i]);
        } else {
            assert((a + b)[i] == b[i - a.len()]);
        }
    }
}

proof fn lemma_quoted_printable(bytes: Seq<u8>)
    ensures
        all_printable(escaped(bytes)),
        all_printable(quoted(bytes)),
    decreases bytes.len(),
{
    if bytes.len() > 0 {
        lemma_quoted_printable(bytes.drop_last());
        assert(all_printable(escaped_byte(bytes.last())));
        lemma_printable_concat(escaped(bytes.drop_last()), escaped_byte(bytes.last()));
    }
    lemma_printable_concat(seq!['"'], escaped(bytes));
    lemma_printable_concat(seq!['"'] + escaped(bytes), seq!['"']);
}

proof fn lemma_join_printable(parts: Seq<Seq<char>>)
    requires
        forall|i: int| 0 <= i < parts.len() ==> all_printable(#[trigger] parts[i]),
    ensures
        all_printable(join(parts, seq![' '])),
    decreases parts.len(),
{
    if parts.len() > 1 {
        let before = parts.drop_last();
        assert forall|i: int| 0 <= i < before.len() implies all_printable(#[trigger] before[i]) by {
            assert(before[i] == parts[i]);
        }
        lemma_join_printable(before);
        assert(all_printable(parts[parts.len() - 1]));
        lemma_printable_concat(join(before, seq![' ']), seq![' ']);
        lemma_printable_concat(join(before, seq![' ']) + seq![' '], parts.last());
    } else if parts.len() == 1 {
        assert(all_printable(parts[0]));
    }
}

proof fn lemma_command_line_printable(arguments: Seq<Seq<u8>>)
    ensures
        all_printable(command_line(arguments)),
{
    let parts = arguments.map_values(|bytes: Seq<u8>| quoted(bytes));
    assert forall|i: int| 0 <= i < parts.len() implies all_printable(#[trigger] parts[i]) by {
        lemma_quoted_printable(arguments[i]);
    }
    lemma_join_printable(parts);
}

proof fn lemma_decimal_digits(n: nat)
    ensures
        forall|i: int| 0 <= i < decimal(n).len() ==> is_digit(#[trigger] decimal(n)[i]),
    decreases n,
{
    if n >= 10 {
        lemma_decimal_digits(n / 10);
        assert forall|i: int| 0 <= i < decimal(n).len() implies is_digit(#[trigger] decimal(n)[i]) by {
            if i < decimal(n).len() - 1 {
                assert(decimal(n)[i] == decimal(n / 10)[i]);
            }
        }
    }
}

/// Whatever a payload holds, what is logged of it is printable ASCII: no byte of it can
/// break a line or reach a terminal as it is.
pub proof fn law_lines_are_printable(bytes: Seq<u8>)
    ensures
        forall|i: int|
            0 <= i < log_lines(bytes).len() ==> all_printable(#[trigger] log_lines(bytes)[i]),
    decreases bytes.len(),
{
    if bytes.len() > 0 {
        lemma_command_shortens(bytes);
        match command(bytes) {
            (Some(arguments), rest) => {
                lemma_command_line_printable(arguments);
                law_lines_are_printable(rest);
                assert forall|i: int| 0 <= i < log_lines(bytes).len() implies all_printable(
                    #[trigger] log_lines(bytes)[i],
                ) by {
                    if i > 0 {
                        assert(log_lines(bytes)[i] == log_lines(rest)[i - 1]);
                    }
                }
            },
            (None, rest) => {
                reveal_strlit("<unparsed ");
                reveal_strlit(" bytes>");
                lemma_decimal_digits(rest.len());
                let digits = decimal(rest.len());
                assert(all_printable(digits)) by {
                    assert forall|i: int| 0 <= i < digits.len() implies is_printable(
                        #[trigger] digits[i],
                    ) by {
                        assert(is_digit(digits[i]));
                    }
                }
                assert(all_printable("<unparsed "@));
                assert(all_printable(" bytes>"@));
                lemma_printable_concat("<unparsed "@, digits);
                lemma_printable_concat("<unparsed "@ + digits, " bytes>"@);
                assert(log_lines(bytes) =~= seq![unparsed_line(rest.len())]);
            },
        }
    }
}

/// Every command takes one line of the file: what stands before the line's end is
/// printable, and the line's end is the only one.
pub proof fn law_one_line_per_command(bytes: Seq<u8>, i: int, timestamp: Seq<char>)
    requires
        0 <= i < log_lines(bytes).len(),
        all_printable(timestamp),
    ensures
        all_printable(file_line(timestamp, log_lines(bytes)[i]).drop_last()),
        file_line(timestamp, log_lines(bytes)[i]).last() == '\n',
{
    let line = log_lines(bytes)[i];
    law_lines_are_printable(bytes);
    lemma_printable_concat(timestamp, seq![' ']);
    lemma_printable_concat(timestamp + seq![' '], line);
    assert(file_line(timestamp, line).drop_last() =~= timestamp + seq![' '] + line);
}

proof fn lemma_escaped_front(bytes: Seq<u8>)
    requires
        bytes.len() > 0,
    ensures
        escaped(bytes) == escaped_byte(bytes[0]) + escaped(bytes.drop_first()),
    decreases bytes.len(),
{
    if bytes.len() == 1 {
        assert(bytes.drop_last() =~= Seq::<u8>::empty());
        assert(bytes.drop_first() =~= Seq::<u8>::empty());
        assert(escaped(bytes) =~= escaped_byte(bytes[0]) + escaped(bytes.drop_first()));
    } else {
        let before = bytes.drop_last();
        lemma_escaped_front(before);
        assert(bytes.drop_first().drop_last() =~= before.drop_first());
        assert(escaped(bytes) =~= escaped_byte(bytes[0]) + escaped(bytes.drop_first()));
    }
}

proof fn lemma_hex_digit_injective(a: nat, b: nat)
    requires
        a < 16,
        b < 16,
        hex_digit(a) == hex_digit(b),
    ensures
        a == b,
{
    let c = hex_digit(a) as int;
    assert(c == if a < 10 {
        48 + a
    } else {
        87 + a
    });
    assert(c == if b < 10 {
        48 + b
    } else {
        87 + b
    });
}

proof fn lemma_escaped_byte_ends(a: u8, b: u8, x: Seq<char>, y: Seq<char>)
    requires
        escaped_byte(a) + x == escaped_byte(b) + y,
    ensures
        a == b,
        x == y,
{
    let s = escaped_byte(a) + x;
    assert(s[0] == escaped_byte(a)[0] && s[0] == escaped_byte(b)[0]);
    if escaped_byte(a).len() > 1 && escaped_byte(b).len() > 1 {
        assert(s[1] == escaped_byte(a)[1] && s[1] == escaped_byte(b)[1]);
        if s[1] == 'x' {
            assert(s[2] == escaped_byte(a)[2] && s[2] == escaped_byte(b)[2]);
            assert(s[3] == escaped_byte(a)[3] && s[3] == escaped_byte(b)[3]);
            lemma_hex_digit_injective((a / 16) as nat, (b / 16) as nat);
            lemma_hex_digit_injective((a % 16) as nat, (b % 16) as nat);
        }
    }
    assert(a == b);
    assert(s.skip(escaped_byte(a).len() as int) =~= x);
    assert(s.skip(escaped_byte(b).len() as int) =~= y);
}

proof fn lemma_escaped_ends(a: Seq<u8>, b: Seq<u8>, x: Seq<char>, y: Seq<char>)
    requires
        escaped(a) + (seq!['"'] + x) == escaped(b) + (seq!['"'] + y),
    ensures
        a == b,
        x == y,
    decreases a.len(),
{
    let end_a = seq!['"'] + x;
    let end_b = seq!['"'] + y;
    let s = escaped(a) + end_a;
    if a.len() > 0 {
        lemma_escaped_front(a);
        assert(s =~= escaped_byte(a[0]) + (escaped(a.drop_first()) + end_a));
    } else {
        assert(s =~= end_a);
    }
    if b.len() > 0 {
        lemma_escaped_front(b);
        assert(s =~= escaped_byte(b[0]) + (escaped(b.drop_first()) + end_b));
    } else {
        assert(s =~= end_b);
    }
    if a.len() == 0 && b.len() == 0 {
        assert(a =~= b);
        assert(end_a.skip(1) =~= x);
        assert(end_b.skip(1) =~= y);
    } else if a.len() == 0 {
        assert(s[0] == '"');
        assert(s[0] == escaped_byte(b[0])[0]);
    } else if b.len() == 0 {
        assert(s[0] == '"');
        assert(s[0] == escaped_byte(a[0])[0]);
    } else {
        lemma_escaped_byte_ends(
            a[0],
            b[0],
            escaped(a.drop_first()) + end_a,
            escaped(b.drop_first()) + end_b,
        );
        lemma_escaped_ends(a.drop_first(), b.drop_first(), x, y);
        assert(a =~= seq![a[0]] + a.drop_first());
        assert(b =~= seq![b[0]] + b.drop_first());
    }
}

pub proof fn lemma_join_front(parts: Seq<Seq<char>>, separator: Seq<char>)
    requires
        parts.len() > 1,
    ensures
        join(parts, separator) == parts[0] + separator + join(parts.drop_first(), separator),
    decreases parts.len(),
{
    let before = parts.drop_last();
    if parts.len() == 2 {
        assert(join(before, separator) == parts[0]);
        assert(join(parts.drop_first(), separator) == parts.last());
        assert(join(parts, separator) =~= parts[0] + separator + join(
            parts.drop_first(),
            separator,
        ));
    } else {
        lemma_join_front(before, separator);
        let behind = parts.drop_first();
        assert(before.drop_first() =~= behind.drop_last());
        assert(behind.last() == parts.last() && before[0] == parts[0]);
        assert(join(behind, separator) == join(behind.drop_last(), separator) + separator
            + parts.last());
        assert(join(parts, separator) =~= parts[0] + separator + join(
            parts.drop_first(),
            separator,
        ));
    }
}

/// What is logged behind the first argument of a command.
spec fn line_behind_first(arguments: Seq<Seq<u8>>) -> Seq<char> {
    if arguments.len() <= 1 {
        Seq::empty()
    } else {
        seq![' '] + command_line(arguments.drop_first())
    }
}

proof fn lemma_command_line_front(arguments: Seq<Seq<u8>>)
    requires
        arguments.len() > 0,
    ensures
        command_line(arguments) == seq!['"'] + (escaped(arguments[0]) + (seq!['"']
            + line_behind_first(arguments))),
{
    let quote = |bytes: Seq<u8>| quoted(bytes);
    let parts = arguments.map_values(quote);
    if arguments.len() > 1 {
        lemma_join_front(parts, seq![' ']);
        assert(parts.drop_first() =~= arguments.drop_first().map_values(quote));
    }
    assert(command_line(arguments) =~= seq!['"'] + (escaped(arguments[0]) + (seq!['"']
        + line_behind_first(arguments))));
}

/// No two commands are logged alike: a line tells each argument to the byte.
pub proof fn law_lines_tell_commands_apart(a: Seq<Seq<u8>>, b: Seq<Seq<u8>>)
    requires
        command_line(a) == command_line(b),
    ensures
        a == b,
    decreases a.len(),
{
    if a.len() > 0 {
        lemma_command_line_front(a);
    }
    if b.len() > 0 {
        lemma_command_line_front(b);
    }
    if a.len() == 0 || b.len() == 0 {
        assert(a =~= b);
    } else {
        let s = command_line(a);
        let end_a = seq!['"'] + line_behind_first(a);
        let end_b = seq!['"'] + line_behind_first(b);
        assert(s.skip(1) =~= escaped(a[0]) + end_a);
        assert(s.skip(1) =~= escaped(b[0]) + end_b);
        lemma_escaped_ends(a[0], b[0], line_behind_first(a), line_behind_first(b));
        if a.len() > 1 && b.len() > 1 {
            let others_a = command_line(a.drop_first());
            let others_b = command_line(b.drop_first());
            assert(line_behind_first(a).skip(1) =~= others_a);
            assert(line_behind_first(b).skip(1) =~= others_b);
            law_lines_tell_commands_apart(a.drop_first(), b.drop_first());
        } else {
            assert(line_behind_first(a).len() == 0 || line_behind_first(a)[0] == ' ');
            assert(a.len() == b.len());
            assert(a.drop_first() =~= b.drop_first());
        }
        assert(a =~= seq![a[0]] + a.drop_first());
        assert(b =~= seq![b[0]] + b.drop_first());
    }
}

} // verus!
