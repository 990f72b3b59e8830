//! What each sink gets, said of the characters and bytes themselves.

use vstd::prelude::*;

use crate::command_logger::{file_line, sink_gets, tee_datagram, CommandLogger, LogEntry};
use crate::logger_laws::{
    encoded_arguments, encoded_commands, encoded_header, fits_in_memory, law_commands_are_logged,
    lemma_header_read, lemma_join_front, lemma_number_bytes, number_bytes,
};
use crate::resp_commands::{
    argument, arguments, begins_with_line_end, command, command_line, decode_commands, digits_value,
    escaped, header, hex_digit, is_digit_byte, lemma_command_shortens, log_lines, quoted, unsigned_digits,
    written_number,
};
use crate::text::{before_first, decimal, string_texts};
use crate::text_laws::{law_before_first, law_string_texts};

verus! {

/// A line is the timestamp, a space, the whole command and the line's end, and nothing else.
pub proof fn law_file_line(timestamp: Seq<char>, command: Seq<char>)
    ensures
        file_line(timestamp, command).len() == timestamp.len() + command.len() + 2,
        file_line(timestamp, command).subrange(0, timestamp.len() as int) == timestamp,
        file_line(timestamp, command)[timestamp.len() as int] == ' ',
        file_line(timestamp, command).subrange(
            timestamp.len() as int + 1,
            timestamp.len() as int + 1 + command.len() as int,
        ) == command,
        file_line(timestamp, command)[timestamp.len() as int + 1 + command.len() as int] == '\n',
{
    let line = file_line(timestamp, command);
    assert(line.subrange(0, timestamp.len() as int) =~= timestamp);
    assert(line.subrange(
        timestamp.len() as int + 1,
        timestamp.len() as int + 1 + command.len() as int,
    ) =~= command);
}

/// At one time, two commands have one line only where they are one command.
pub proof fn law_file_lines_differ(timestamp: Seq<char>, a: Seq<char>, b: Seq<char>)
    requires
        file_line(timestamp, a) == file_line(timestamp, b),
    ensures
        a == b,
{
    law_file_line(timestamp, a);
    law_file_line(timestamp, b);
}

/// A datagram is the connection's identifier, a colon, the timestamp, a colon, a space and the
/// whole command, and nothing else.
pub proof fn law_datagram(uuid: Seq<char>, timestamp: Seq<char>, command: Seq<char>)
    ensures
        tee_datagram(uuid, timestamp, command).len() == uuid.len() + timestamp.len()
            + command.len() + 3,
        tee_datagram(uuid, timestamp, command).subrange(0, uuid.len() as int) == uuid,
        tee_datagram(uuid, timestamp, command)[uuid.len() as int] == ':',
        tee_datagram(uuid, timestamp, command).subrange(
            uuid.len() as int + 1,
            uuid.len() as int + 1 + timestamp.len() as int,
        ) == timestamp,
        tee_datagram(uuid, timestamp, command)[uuid.len() as int + 1 + timestamp.len() as int]
            == ':',
        tee_datagram(uuid, timestamp, command)[uuid.len() as int + 2 + timestamp.len() as int]
            == ' ',
        tee_datagram(uuid, timestamp, command).subrange(
            uuid.len() as int + 3 + timestamp.len() as int,
            uuid.len() as int + 3 + timestamp.len() as int + command.len() as int,
        ) == command,
{
    reveal_strlit(": ");
    let datagram = tee_datagram(uuid, timestamp, command);
    let behind = uuid.len() as int + 1;
    assert(datagram.subrange(0, uuid.len() as int) =~= uuid);
    assert(datagram.subrange(behind, behind + timestamp.len() as int) =~= timestamp);
    let last = behind + timestamp.len() as int + 2;
    assert(datagram.subrange(last, last + command.len() as int) =~= command);
}

/// At one time, two commands of a connection have one datagram only where they are one
/// command.
pub proof fn law_datagrams_differ(
    uuid: Seq<char>,
    timestamp: Seq<char>,
    a: Seq<char>,
    b: Seq<char>,
)
    requires
        tee_datagram(uuid, timestamp, a) == tee_datagram(uuid, timestamp, b),
    ensures
        a == b,
{
    law_datagram(uuid, timestamp, a);
    law_datagram(uuid, timestamp, b);
}

/// Every command gives each sink that is there its text, whole, and gives none to a sink that
/// is not there.
pub proof fn law_entries<F, T>(
    logger: &CommandLogger<F, T>,
    timestamp: &str,
    packed: &[u8],
    entries: Vec<LogEntry>,
    i: int,
)
    requires
        call_ensures(CommandLogger::<F, T>::log, (logger, timestamp, packed), entries),
        0 <= i < log_lines(packed@).len(),
    ensures
        entries@.len() == log_lines(packed@).len(),
        entries@[i].line is Some <==> logger.file_sink() is Some,
        entries@[i].datagram is Some <==> logger.tee_sink() is Some,
        entries@[i].line matches Some(line) ==> {
            let start = timestamp@.len() as int;
            let command = log_lines(packed@)[i];
            &&& line@.len() == start + command.len() + 2
            &&& line@.subrange(0, start) == timestamp@
            &&& line@[start] == ' '
            &&& line@.subrange(start + 1, line@.len() - 1) == command
            &&& line@[line@.len() - 1] == '\n'
        },
        entries@[i].datagram matches Some(datagram) ==> {
            let first = logger.id().len() as int;
            let second = first + 1 + timestamp@.len() as int;
            let command = log_lines(packed@)[i];
            &&& datagram@.len() == second + 2 + command.len()
            &&& datagram@.subrange(0, first) == logger.id()
            &&& datagram@[first] == ':'
            &&& datagram@.subrange(first + 1, second) == timestamp@
            &&& datagram@[second] == ':'
            &&& datagram@[second + 1] == ' '
            &&& datagram@.subrange(second + 2, datagram@.len() as int) == command
        },
{
    law_file_line(timestamp@, log_lines(packed@)[i]);
    law_datagram(logger.id(), timestamp@, log_lines(packed@)[i]);
}

/// A sink that is there gets the text, and one that is not there gets none.
pub proof fn law_sinks(text: Option<String>, expected: Seq<char>)
    ensures
        sink_gets(true, text, expected) <==> text is Some && text.unwrap()@ == expected,
        sink_gets(false, text, expected) <==> text is None,
{
}

/// A command's line is its arguments in quotes, in order, with one space between them.
pub proof fn law_command_line(first: Seq<u8>, others: Seq<Seq<u8>>)
    ensures
        command_line(Seq::empty()).len() == 0,
        command_line(seq![first]) == quoted(first),
        others.len() > 0 ==> command_line(seq![first] + others) == quoted(first) + seq![' ']
            + command_line(others),
{
    let quote = |bytes: Seq<u8>| quoted(bytes);
    assert(Seq::<Seq<u8>>::empty().map_values(quote) =~= Seq::<Seq<char>>::empty());
    assert(seq![first].map_values(quote) =~= seq![quoted(first)]);
    if others.len() > 0 {
        let parts = (seq![first] + others).map_values(quote);
        lemma_join_front(parts, seq![' ']);
        assert(parts.drop_first() =~= others.map_values(quote));
    }
}

proof fn lemma_escaped_both(a: Seq<u8>, b: Seq<u8>)
    ensures
        escaped(a + b) == escaped(a) + escaped(b),
    decreases b.len(),
{
    if b.len() == 0 {
        assert(a + b =~= a);
        assert(escaped(a) + escaped(b) =~= escaped(a));
    } else {
        lemma_escaped_both(a, b.drop_last());
        assert((a + b).drop_last() =~= a + b.drop_last());
        assert(escaped(a + b) =~= escaped(a) + escaped(b));
    }
}

/// What stands between the quotes is what is written for one byte after the other.
pub proof fn law_quoted_in_parts(a: Seq<u8>, b: Seq<u8>)
    ensures
        quoted(Seq::empty()) == seq!['"', '"'],
        quoted(a + b) == quoted(a).drop_last() + quoted(b).drop_first(),
{
    assert(quoted(Seq::empty()) =~= seq!['"', '"']);
    lemma_escaped_both(a, b);
    assert(quoted(a).drop_last() =~= seq!['"'] + escaped(a));
    assert(quoted(b).drop_first() =~= escaped(b) + seq!['"']);
    assert(quoted(a + b) =~= quoted(a).drop_last() + quoted(b).drop_first());
}

/// The value of a digit in base sixteen.
pub open spec fn hex_value(c: char) -> int {
    if 48 <= c as int <= 57 {
        c as int - 48
    } else if 97 <= c as int <= 102 {
        c as int - 87
    } else {
        -1
    }
}

/// A printable byte is written as it is, except the quote and the backslash, which a backslash
/// precedes; line feed, carriage return and tab have names; any other byte is written as its
/// two digits in base sixteen.
pub proof fn law_quoted_byte(b: u8)
    ensures
        32 <= b <= 126 && b != 34 && b != 92 ==> quoted(seq![b]) == seq!['"', b as char, '"'],
        b == 34 ==> quoted(seq![b]) == seq!['"', '\\', '"', '"'],
        b == 92 ==> quoted(seq![b]) == seq!['"', '\\', '\\', '"'],
        b == 10 ==> quoted(seq![b]) == seq!['"', '\\', 'n', '"'],
        b == 13 ==> quoted(seq![b]) == seq!['"', '\\', 'r', '"'],
        b == 9 ==> quoted(seq![b]) == seq!['"', '\\', 't', '"'],
        (b < 32 && b != 9 && b != 10 && b != 13) || b > 126 ==> {
            let text = quoted(seq![b]);
            &&& text.len() == 6
            &&& text[0] == '"' && text[1] == '\\' && text[2] == 'x' && text[5] == '"'
            &&& 0 <= hex_value(text[3]) && 0 <= hex_value(text[4])
            &&& 16 * hex_value(text[3]) + hex_value(text[4]) == b
        },
{
    let bytes = seq![b];
    assert(bytes.drop_last() =~= Seq::<u8>::empty());
    assert(escaped(bytes.drop_last()) =~= Seq::<char>::empty());
    assert(escaped(bytes) =~= crate::resp_commands::escaped_byte(b));
    let text = quoted(bytes);
    assert(text =~= seq!['"'] + crate::resp_commands::escaped_byte(b) + seq!['"']);
    assert(32 <= b <= 126 && b != 34 && b != 92 ==> text =~= seq!['"', b as char, '"']);
    assert(b == 34 ==> text =~= seq!['"', '\\', '"', '"']);
    assert(b == 92 ==> text =~= seq!['"', '\\', '\\', '"']);
    assert(b == 10 ==> text =~= seq!['"', '\\', 'n', '"']);
    assert(b == 13 ==> text =~= seq!['"', '\\', 'r', '"']);
    assert(b == 9 ==> text =~= seq!['"', '\\', 't', '"']);
    let high = hex_digit((b / 16) as nat);
    let low = hex_digit((b % 16) as nat);
    assert(high as int == if b / 16 < 10 {
        48 + b / 16
    } else {
        87 + b / 16
    });
    assert(low as int == if b % 16 < 10 {
        48 + b % 16
    } else {
        87 + b % 16
    });
}

/// Whether every byte of `text` is a digit.
pub open spec fn all_digit_bytes(text: Seq<u8>) -> bool {
    forall|i: int| 0 <= i < text.len() ==> 48 <= #[trigger] text[i] <= 57
}

proof fn lemma_digit_bytes(text: Seq<u8>)
    ensures
        all_digit_bytes(text) <==> forall|i: int|
            0 <= i < text.len() ==> is_digit_byte(#[trigger] text[i]),
{
    if all_digit_bytes(text) {
        assert forall|i: int| 0 <= i < text.len() implies is_digit_byte(#[trigger] text[i]) by {
            assert(48 <= text[i] <= 57);
        }
    }
    if forall|i: int| 0 <= i < text.len() ==> is_digit_byte(#[trigger] text[i]) {
        assert forall|i: int| 0 <= i < text.len() implies 48 <= #[trigger] text[i] <= 57 by {
            assert(is_digit_byte(text[i]));
        }
    }
}

/// A number is written in digits, the highest first: one more digit makes ten times as much
/// and the digit. What is past the range of `usize` is none.
pub proof fn law_written_numbers(text: Seq<u8>, digit: u8)
    requires
        48 <= digit <= 57,
        all_digit_bytes(text),
    ensures
        written_number(seq![digit]) == Some((digit - 48) as usize),
        text.len() > 0 && written_number(text) is None ==> written_number(text.push(digit)) is None,
        written_number(text) matches Some(n) ==> if 10 * n + (digit - 48) <= usize::MAX {
            written_number(text.push(digit)) == Some((10 * n + (digit - 48)) as usize)
        } else {
            written_number(text.push(digit)) is None
        },
{
    let one = seq![digit];
    assert(one.drop_last() =~= Seq::<u8>::empty());
    assert(digits_value(one.drop_last()) == 0);
    assert(is_digit_byte(one[0]));
    assert(unsigned_digits(one) == one);
    let more = text.push(digit);
    assert(more.drop_last() =~= text);
    assert forall|i: int| 0 <= i < more.len() implies is_digit_byte(#[trigger] more[i]) by {
        if i < text.len() {
            assert(48 <= text[i] <= 57);
        }
    }
    lemma_digit_bytes(text);
    if text.len() > 0 {
        assert(48 <= text[0] <= 57);
        assert(more[0] == text[0]);
        assert(unsigned_digits(text) == text && unsigned_digits(more) == more);
    }
}

/// A plus sign may precede a number, and nothing else may stand with the digits.
pub proof fn law_written_signs(text: Seq<u8>)
    ensures
        text.len() > 0 && all_digit_bytes(text) ==> written_number(seq![43u8] + text)
            == written_number(text),
        text.len() == 0 || !all_digit_bytes(text) ==> written_number(seq![43u8] + text) is None,
        text.len() == 0 || (text[0] != 43 && !all_digit_bytes(text)) ==> written_number(text)
            is None,
{
    let signed = seq![43u8] + text;
    assert(signed.skip(1) =~= text);
    lemma_digit_bytes(text);
    if text.len() > 0 && all_digit_bytes(text) {
        assert(48 <= text[0] <= 57);
    }
}

/// The line for `count` bytes that are no command.
pub open spec fn marker(count: nat) -> Seq<char> {
    seq!['<', 'u', 'n', 'p', 'a', 'r', 's', 'e', 'd', ' '] + decimal(count)
        + seq![' ', 'b', 'y', 't', 'e', 's', '>']
}

proof fn lemma_marker(bytes: Seq<u8>, rest: Seq<u8>)
    requires
        bytes.len() > 0,
        command(bytes) == (None::<Seq<Seq<u8>>>, rest),
    ensures
        log_lines(bytes) == seq![marker(rest.len())],
{
    reveal_strlit("<unparsed ");
    reveal_strlit(" bytes>");
    lemma_command_shortens(bytes);
    assert("<unparsed "@ =~= seq!['<', 'u', 'n', 'p', 'a', 'r', 's', 'e', 'd', ' ']);
    assert(" bytes>"@ =~= seq![' ', 'b', 'y', 't', 'e', 's', '>']);
    assert(log_lines(bytes) =~= seq![marker(rest.len())]);
}

proof fn lemma_cr_at(text: Seq<u8>, rest: Seq<u8>)
    requires
        !text.contains(13),
        rest.len() == 0 || rest[0] == 13,
    ensures
        before_first(text + rest, 13u8) == text.len(),
{
    let all = text + rest;
    law_before_first(all, 13u8);
    let first = before_first(all, 13u8) as int;
    if first < text.len() {
        assert(text[first] == 13);
    }
    if first > text.len() {
        assert(all[text.len() as int] == 13);
    }
}

/// Whether `rest` begins with a carriage return and a line feed.
pub open spec fn at_line_end(rest: Seq<u8>) -> bool {
    rest.len() >= 2 && rest[0] == 13 && rest[1] == 10
}

/// A header is its mark, a number and a line's end. Without the mark nothing is read; without
/// the number or the line's end what is read ends before the first carriage return.
pub proof fn law_headers(mark: u8, text: Seq<u8>, rest: Seq<u8>)
    requires
        !text.contains(13),
        rest.len() == 0 || rest[0] == 13,
    ensures
        at_line_end(rest) && written_number(text) is Some ==> header(
            seq![mark] + text + rest,
            mark,
        ) == (written_number(text), rest.subrange(2, rest.len() as int)),
        !(at_line_end(rest) && written_number(text) is Some) ==> header(
            seq![mark] + text + rest,
            mark,
        ) == (None::<usize>, rest),
        header(Seq::empty(), mark) == (None::<usize>, Seq::<u8>::empty()),
        forall|other: u8|
            other != mark ==> #[trigger] header(seq![mark] + text + rest, other) == (
                None::<usize>,
                seq![mark] + text + rest,
            ),
{
    let all = seq![mark] + text + rest;
    assert(all.skip(1) =~= text + rest);
    lemma_cr_at(text, rest);
    assert((text + rest).take(text.len() as int) =~= text);
    assert((text + rest).skip(text.len() as int) =~= rest);
    if at_line_end(rest) {
        assert(rest.skip(2) =~= rest.subrange(2, rest.len() as int));
    }
}

/// An argument is a header with `$` and a length, as many bytes, and a line's end. Reading one
/// that is cut off stops behind the header where the bytes are too few, and behind the bytes
/// where the line's end is missing.
pub proof fn law_arguments(bytes: Seq<u8>, len: usize, behind: Seq<u8>)
    requires
        header(bytes, 36) == (Some(len), behind),
    ensures
        len > behind.len() ==> argument(bytes) == (None::<Seq<u8>>, behind),
        len <= behind.len() && at_line_end(behind.subrange(len as int, behind.len() as int))
            ==> argument(bytes) == (
            Some(behind.subrange(0, len as int)),
            behind.subrange(len as int + 2, behind.len() as int),
        ),
        len <= behind.len() && !at_line_end(behind.subrange(len as int, behind.len() as int))
            ==> argument(bytes) == (
            None::<Seq<u8>>,
            behind.subrange(len as int, behind.len() as int),
        ),
{
    if len <= behind.len() {
        let rest = behind.skip(len as int);
        assert(rest =~= behind.subrange(len as int, behind.len() as int));
        assert(begins_with_line_end(rest) <==> at_line_end(rest));
        if at_line_end(rest) {
            assert(rest.skip(2) =~= behind.subrange(len as int + 2, behind.len() as int));
            assert(behind.take(len as int) =~= behind.subrange(0, len as int));
        }
    }
}

/// Where there is no argument's header, reading an argument stops where reading the header
/// does.
pub proof fn law_arguments_without_header(bytes: Seq<u8>)
    ensures
        header(bytes, 36).0 is None ==> argument(bytes) == (None::<Seq<u8>>, header(bytes, 36).1),
{
}

/// Bytes that begin with no command's header are logged as so many bytes: as many as reading
/// the header left.
pub proof fn law_bytes_without_command(bytes: Seq<u8>)
    requires
        bytes.len() > 0,
        header(bytes, 42).0 is None,
    ensures
        log_lines(bytes) == seq![marker(header(bytes, 42).1.len())],
        bytes[0] != 42 ==> log_lines(bytes) == seq![marker(bytes.len())],
{
    lemma_marker(bytes, header(bytes, 42).1);
}

/// Arguments are read one after the other, each where the one before it ended; the first that
/// cannot be read ends the reading.
pub proof fn law_arguments_in_turn(bytes: Seq<u8>, count: nat)
    ensures
        arguments(bytes, 0) == (Some(Seq::<Seq<u8>>::empty()), bytes),
        argument(bytes).0 is None ==> arguments(bytes, count + 1) == (
            None::<Seq<Seq<u8>>>,
            argument(bytes).1,
        ),
        argument(bytes).0 is Some ==> {
            let others = arguments(argument(bytes).1, count);
            let all = arguments(bytes, count + 1);
            &&& all.1 == others.1
            &&& all.0 is Some <==> others.0 is Some
            &&& others.0 is Some ==> {
                &&& all.0.unwrap().len() == others.0.unwrap().len() + 1
                &&& all.0.unwrap()[0] == argument(bytes).0.unwrap()
                &&& all.0.unwrap().subrange(1, all.0.unwrap().len() as int) == others.0.unwrap()
            }
        },
{
    if argument(bytes).0 is Some {
        let others = arguments(argument(bytes).1, count);
        let all = arguments(bytes, count + 1);
        if others.0 is Some {
            assert(all.0.unwrap().subrange(1, all.0.unwrap().len() as int) =~= others.0.unwrap());
        }
    }
}

/// A command whose header and arguments can be read is logged as its line, and the bytes
/// behind it as they would be alone; one whose arguments cannot be read is logged as so many
/// bytes.
pub proof fn law_first_command(bytes: Seq<u8>, count: usize, behind: Seq<u8>)
    requires
        header(bytes, 42) == (Some(count), behind),
    ensures
        arguments(behind, count as nat).0 matches Some(all) ==> log_lines(bytes) == seq![
            command_line(all),
        ] + log_lines(arguments(behind, count as nat).1),
        arguments(behind, count as nat).0 is None ==> log_lines(bytes) == seq![
            marker(arguments(behind, count as nat).1.len()),
        ],
{
    lemma_command_shortens(bytes);
    if arguments(behind, count as nat).0 is None {
        lemma_marker(bytes, arguments(behind, count as nat).1);
    }
}

proof fn lemma_arguments_cut_off(done: Seq<Seq<u8>>, count: nat, rest: Seq<u8>, left: Seq<u8>)
    requires
        fits_in_memory(done),
        done.len() < count,
        argument(rest) == (None::<Seq<u8>>, left),
    ensures
        arguments(encoded_arguments(done) + rest, count) == (None::<Seq<Seq<u8>>>, left),
    decreases done.len(),
{
    if done.len() == 0 {
        assert(encoded_arguments(done) + rest =~= rest);
    } else {
        let others = done.drop_first();
        let behind = encoded_arguments(others) + rest;
        assert(encoded_arguments(done) + rest =~= crate::logger_laws::encoded_argument(done[0])
            + behind);
        assert forall|i: int| 0 <= i < others.len() implies (#[trigger] others[i]).len()
            <= usize::MAX by {
            assert(others[i] == done[i + 1]);
        }
        crate::logger_laws::lemma_argument_read(done[0], behind);
        lemma_arguments_cut_off(others, (count - 1) as nat, rest, left);
    }
}

/// A command that breaks off in one of its arguments is logged as so many bytes: as many as
/// reading that argument left.
pub proof fn law_commands_cut_off(
    count: usize,
    done: Seq<Seq<u8>>,
    rest: Seq<u8>,
    left: Seq<u8>,
)
    requires
        fits_in_memory(done),
        done.len() < count,
        argument(rest) == (None::<Seq<u8>>, left),
    ensures
        log_lines(encoded_header(42, count as nat) + (encoded_arguments(done) + rest)) == seq![
            marker(left.len()),
        ],
{
    let behind = encoded_arguments(done) + rest;
    let bytes = encoded_header(42, count as nat) + behind;
    lemma_header_read(42, count as nat, behind);
    lemma_arguments_cut_off(done, count as nat, rest, left);
    lemma_marker(bytes, left);
}

/// A header in the wire format is its mark, the digits of the number and a line's end.
pub proof fn law_encoded_header(mark: u8, n: nat)
    ensures
        encoded_header(mark, n) == seq![mark] + number_bytes(n) + seq![13u8, 10u8],
        n < 10 ==> number_bytes(n) == seq![(48 + n) as u8],
        n >= 10 ==> number_bytes(n) == number_bytes(n / 10).push((48 + n % 10) as u8),
{
    lemma_number_bytes(n);
}

/// What is decoded of commands in the wire format is a line for each of them, in order, with
/// its arguments in quotes.
pub proof fn law_decoded_commands(
    packed: &[u8],
    lines: Vec<String>,
    commands: Seq<Seq<Seq<u8>>>,
    i: int,
)
    requires
        call_ensures(decode_commands, (packed,), lines),
        forall|j: int| 0 <= j < commands.len() ==> fits_in_memory(#[trigger] commands[j]),
        packed@ == encoded_commands(commands),
        0 <= i < commands.len(),
    ensures
        lines@.len() == commands.len(),
        lines@[i]@ == command_line(commands[i]),
{
    law_commands_are_logged(commands, Seq::empty());
    assert(encoded_commands(commands) + Seq::<u8>::empty() =~= encoded_commands(commands));
    law_string_texts(lines@);
    assert(log_lines(packed@).len() == commands.len());
    assert(string_texts(lines@).len() == lines@.len());
    assert(string_texts(lines@)[i] == lines@[i]@);
}

} // verus!
