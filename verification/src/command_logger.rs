//! Logging of every command sent on a connection.
//!
//! This is a debugging aid in the spirit of redis' `MONITOR`, but driven entirely from the
//! client side. There are two sinks, and both can be active at the same time: a file for
//! each connection, which gets a line per command,
//!
//! ```text
//! 1718000000.123456 "SET" "foo" "bar"
//! ```
//!
//! and a UDP endpoint, which gets a datagram per command of the form
//!
//! ```text
//! <client uuid>:<unix time>: <command>
//! ```

use vstd::prelude::*;

use crate::resp_commands::{decode_commands, hex_digit, log_lines};
use crate::text::{decimal, digit_char, is_empty, push_decimal, string_texts};

verus! {

/// Port used for the UDP endpoint when its address does not contain a `:port`.
pub const DEFAULT_TEE_PORT: u16 = 9999;

/// The last `width` digits of `n` in base sixteen.
pub open spec fn hex_digits(n: nat, width: nat) -> Seq<char>
    decreases width,
{
    if width == 0 {
        Seq::empty()
    } else {
        hex_digits(n / 16, (width - 1) as nat).push(hex_digit(n % 16))
    }
}

/// The five groups of digits of a value, with hyphens between them: eight digits, three
/// times four, and twelve.
pub open spec fn uuid_text(v: u128) -> Seq<char> {
    hex_digits((v / 0x1_0000_0000_0000_0000_0000_0000) as nat, 8) + seq!['-'] + hex_digits(
        (v / 0x1_0000_0000_0000_0000_0000) as nat,
        4,
    ) + seq!['-'] + hex_digits((v / 0x1_0000_0000_0000_0000) as nat, 4) + seq!['-'] + hex_digits(
        (v / 0x1_0000_0000_0000) as nat,
        4,
    ) + seq!['-'] + hex_digits(v as nat, 12)
}

/// Appends the last `width` digits of `n` in base sixteen.
fn push_hex(out: &mut String, n: u128, width: u8)
    ensures
        final(out)@ == old(out)@ + hex_digits(n as nat, width as nat),
    decreases width,
{
    if width > 0 {
        push_hex(out, n / 16, width - 1);
        let digit: u8 = (n % 16) as u8;
        if digit < 10 {
            out.push((48 + digit) as char);
        } else {
            out.push((87 + digit) as char);
        }
    }
    assert(out@ =~= old(out)@ + hex_digits(n as nat, width as nat));
}

/// Render a 128-bit value as a canonical `8-4-4-4-12` UUID-style string.
pub fn format_uuid(v: u128) -> (uuid: String)
    ensures
        uuid@ == uuid_text(v),
{
    let mut uuid = String::new();
    push_hex(&mut uuid, v / 0x1_0000_0000_0000_0000_0000_0000, 8);
    uuid.push('-');
    push_hex(&mut uuid, v / 0x1_0000_0000_0000_0000_0000, 4);
    uuid.push('-');
    push_hex(&mut uuid, v / 0x1_0000_0000_0000_0000, 4);
    uuid.push('-');
    push_hex(&mut uuid, v / 0x1_0000_0000_0000, 4);
    uuid.push('-');
    push_hex(&mut uuid, v, 12);
    assert(uuid@ =~= uuid_text(v));
    uuid
}

/// The decimal digits of `n`, with zeros before them where they are fewer than `width`.
pub open spec fn padded_decimal(n: nat, width: nat) -> Seq<char>
    decreases width,
{
    if width <= 1 {
        decimal(n)
    } else {
        padded_decimal(n / 10, (width - 1) as nat).push(digit_char(n % 10))
    }
}

/// Appends the decimal digits of `n`, with zeros before them where they are fewer than
/// `width`.
fn push_padded_decimal(out: &mut String, n: u64, width: u8)
    ensures
        final(out)@ == old(out)@ + padded_decimal(n as nat, width as nat),
    decreases width,
{
    if width <= 1 {
        push_decimal(out, n);
    } else {
        push_padded_decimal(out, n / 10, width - 1);
        let digit: u8 = (n % 10) as u8;
        out.push((48 + digit) as char);
        assert(out@ =~= old(out)@ + padded_decimal(n as nat, width as nat));
    }
}

/// A time since the Unix epoch as `seconds.microseconds`.
pub open spec fn timestamp_text(seconds: nat, micros: nat) -> Seq<char> {
    decimal(seconds) + seq!['.'] + padded_decimal(micros, 6)
}

/// A time as `seconds.microseconds` since the Unix epoch, given as whole seconds and
/// microseconds. A time before the epoch, which is given as `None`, counts as the epoch.
pub fn format_timestamp(since_epoch: Option<(u64, u32)>) -> (timestamp: String)
    ensures
        timestamp@ == match since_epoch {
            Some((seconds, micros)) => timestamp_text(seconds as nat, micros as nat),
            None => timestamp_text(0, 0),
        },
{
    let (seconds, micros) = match since_epoch {
        Some(time) => time,
        None => (0, 0),
    };
    let mut timestamp = String::new();
    push_decimal(&mut timestamp, seconds);
    timestamp.push('.');
    push_padded_decimal(&mut timestamp, micros as u64, 6);
    assert(timestamp@ =~= timestamp_text(seconds as nat, micros as nat));
    timestamp
}

/// The last `width` bytes of `n`, the lowest first.
pub open spec fn little_endian(n: nat, width: nat) -> Seq<u8>
    decreases width,
{
    if width == 0 {
        Seq::empty()
    } else {
        seq![(n % 256) as u8] + little_endian(n / 256, (width - 1) as nat)
    }
}

/// Appends the last `width` bytes of `n`, the lowest first.
fn push_little_endian(bytes: &mut Vec<u8>, n: u128, width: u8)
    ensures
        final(bytes)@ == old(bytes)@ + little_endian(n as nat, width as nat),
    decreases width,
{
    if width > 0 {
        bytes.push((n % 256) as u8);
        push_little_endian(bytes, n / 256, width - 1);
    }
    assert(bytes@ =~= old(bytes)@ + little_endian(n as nat, width as nat));
}

/// What a connection's identifier is drawn from: the time, a count, the process and an
/// address on its stack.
pub open spec fn identifier_seed(nanos: u128, count: u64, pid: u32, stack_addr: u64) -> Seq<u8> {
    little_endian(nanos as nat, 16) + little_endian(count as nat, 8) + little_endian(
        pid as nat,
        16,
    ) + little_endian(stack_addr as nat, 16)
}

/// The 128-bit XXH3 hash of `bytes`.
pub uninterp spec fn xxh3_128_hash(bytes: Seq<u8>) -> u128;

/// `xxhash_rust::xxh3::xxh3_128` hashes bytes. The hash depends on the bytes alone; that
/// different bytes give different hashes is likely and not certain.
#[verifier::external_body]
fn hash_bytes(bytes: &[u8]) -> (hash: u128)
    ensures
        hash == xxh3_128_hash(bytes@),
{
    xxhash_rust::xxh3::xxh3_128(bytes)
}

/// A 128-bit value that tags a connection, made from the time since the Unix epoch in
/// nanoseconds, a number that no other connection of the process has, the identifier of
/// the process and the address of something on its stack.
pub fn connection_id(nanos: u128, count: u64, pid: u32, stack_addr: u64) -> (id: u128)
    ensures
        id == xxh3_128_hash(identifier_seed(nanos, count, pid, stack_addr)),
{
    let mut seed: Vec<u8> = Vec::new();
    push_little_endian(&mut seed, nanos, 16);
    push_little_endian(&mut seed, count as u128, 8);
    push_little_endian(&mut seed, pid as u128, 16);
    push_little_endian(&mut seed, stack_addr as u128, 16);
    assert(seed@ =~= identifier_seed(nanos, count, pid, stack_addr));
    hash_bytes(seed.as_slice())
}

/// The name of the file that the commands of the connection `uuid` are written to.
pub fn log_file_name(uuid: &str) -> (name: String)
    ensures
        name@ == "redis-commands-"@ + uuid@ + ".log"@,
{
    let mut name = "redis-commands-".to_owned();
    name.append(uuid);
    name.append(".log");
    name
}

/// Process-wide configuration: a directory `D` for log files, and destinations `T` to tee
/// commands to.
#[derive(Debug)]
pub struct GlobalConfig<D, T> {
    /// Directory to write per-connection log files into, if enabled.
    pub log_dir: Option<D>,
    /// Resolved UDP destination(s) for teeing, if enabled.
    pub tee_targets: Option<T>,
}

impl<D, T> GlobalConfig<D, T> {
    /// Whether anything is to be logged at all.
    pub fn enabled(&self) -> (enabled: bool)
        ensures
            enabled == (self.log_dir is Some || self.tee_targets is Some),
    {
        self.log_dir.is_some() || self.tee_targets.is_some()
    }
}

/// The value of a setting. One that is empty counts as one that is not made.
pub fn effective_setting(value: Option<String>) -> (effective: Option<String>)
    ensures
        effective == match value {
            Some(text) if text@.len() > 0 => value,
            _ => None,
        },
{
    match value {
        Some(text) => if is_empty(text.as_str()) {
            None
        } else {
            Some(text)
        },
        None => None,
    }
}

/// How the lookup of the UDP endpoint goes on.
#[derive(Debug)]
pub enum TeeLookup<A> {
    /// The address as it was given has been resolved.
    Resolved(Vec<A>),
    /// The address is to be looked up as a host, with this port.
    HostWithPort(u16),
}

/// How the lookup of the UDP endpoint goes on once its address, taken as `host:port`, has
/// been looked up.
pub fn after_direct_lookup<A, E>(direct: Result<Vec<A>, E>) -> (next: TeeLookup<A>)
    ensures
        match direct {
            Ok(addresses) => next == TeeLookup::Resolved(addresses),
            Err(_) => next == TeeLookup::<A>::HostWithPort(DEFAULT_TEE_PORT),
        },
{
    match direct {
        Ok(addresses) => TeeLookup::Resolved(addresses),
        Err(_) => TeeLookup::HostWithPort(DEFAULT_TEE_PORT),
    }
}

/// Why the UDP endpoint cannot be used.
#[derive(Debug, Clone, Copy, PartialEq, Eq, Structural)]
pub enum TeeError {
    /// Its host did not resolve to any address.
    NoAddress,
}

/// The addresses of the UDP endpoint, of which there must be one.
pub fn tee_targets<A>(resolved: Vec<A>) -> (targets: Result<Vec<A>, TeeError>)
    ensures
        targets == if resolved@.len() == 0 {
            Err(TeeError::NoAddress)
        } else {
            Ok(resolved)
        },
{
    if resolved.len() == 0 {
        Err(TeeError::NoAddress)
    } else {
        Ok(resolved)
    }
}

/// Which destination comes next for a datagram once the one at `index` of `len` has been
/// tried: none where the datagram was `sent`, and none behind the last.
pub fn next_target(sent: bool, index: usize, len: usize) -> (next: Option<usize>)
    ensures
        next == if !sent && index + 1 < len {
            Some((index + 1) as usize)
        } else {
            None
        },
{
    if !sent && index < len && index + 1 < len {
        Some(index + 1)
    } else {
        None
    }
}

/// A command's line for the file.
pub open spec fn file_line(timestamp: Seq<char>, command: Seq<char>) -> Seq<char> {
    timestamp + seq![' '] + command + seq!['\n']
}

/// A command's datagram for the UDP endpoint.
pub open spec fn tee_datagram(uuid: Seq<char>, timestamp: Seq<char>, command: Seq<char>) -> Seq<
    char,
> {
    uuid + seq![':'] + timestamp + ": "@ + command
}

/// What one command gives to each sink that is there.
#[derive(Debug)]
pub struct LogEntry {
    /// The line for the file.
    pub line: Option<String>,
    /// The datagram for the UDP endpoint.
    pub datagram: Option<String>,
}

/// Whether `text` is what a sink gets: `expected` where there is the sink, and nothing
/// where there is not.
pub open spec fn sink_gets(sink: bool, text: Option<String>, expected: Seq<char>) -> bool {
    match text {
        Some(text) => sink && text@ == expected,
        None => !sink,
    }
}

/// Per-connection command logger, with a sink `F` for lines and a sink `T` for datagrams.
/// It is shared by all clones of a multiplexed connection so they share one file and one
/// client uuid.
#[derive(Debug)]
pub struct CommandLogger<F, T> {
    uuid: String,
    file: Option<F>,
    tee: Option<T>,
}

impl<F, T> CommandLogger<F, T> {
    /// Stable per-connection identifier, also embedded in the log file name.
    pub closed spec fn id(&self) -> Seq<char> {
        self.uuid@
    }

    /// Append target for lines.
    pub closed spec fn file_sink(&self) -> Option<F> {
        self.file
    }

    /// Target for datagrams.
    pub closed spec fn tee_sink(&self) -> Option<T> {
        self.tee
    }

    /// A logger for the sinks of a connection, or `None` if there is nothing to log to.
    pub fn from_sinks(uuid: String, file: Option<F>, tee: Option<T>) -> (logger: Option<Self>)
        ensures
            logger is None <==> file is None && tee is None,
            logger matches Some(logger) ==> logger.id() == uuid@ && logger.file_sink() == file
                && logger.tee_sink() == tee,
    {
        if file.is_none() && tee.is_none() {
            return None;
        }
        Some(CommandLogger { uuid, file, tee })
    }

    /// The append target for lines.
    pub fn file(&self) -> (file: Option<&F>)
        ensures
            file == match self.file_sink() {
                Some(file) => Some(&file),
                None => None,
            },
    {
        self.file.as_ref()
    }

    /// The target for datagrams.
    pub fn tee(&self) -> (tee: Option<&T>)
        ensures
            tee == match self.tee_sink() {
                Some(tee) => Some(&tee),
                None => None,
            },
    {
        self.tee.as_ref()
    }

    /// What each sink gets for an already-encoded payload at the time `timestamp`: one entry
    /// for every command in it.
    ///
    /// Logging is best-effort, and nothing is disabled for good: a datagram that could not be
    /// sent, or a line that could not be written, takes neither sink away from later commands.
    pub fn log(&self, timestamp: &str, packed: &[u8]) -> (entries: Vec<LogEntry>)
        ensures
            entries@.len() == log_lines(packed@).len(),
            forall|i: int|
                0 <= i < entries@.len() ==> sink_gets(
                    self.file_sink() is Some,
                    (#[trigger] entries@[i]).line,
                    file_line(timestamp@, log_lines(packed@)[i]),
                ) && sink_gets(
                    self.tee_sink() is Some,
                    entries@[i].datagram,
                    tee_datagram(self.id(), timestamp@, log_lines(packed@)[i]),
                ),
    {
        let commands = decode_commands(packed);
        let mut entries: Vec<LogEntry> = Vec::new();
        for i in 0..commands.len()
            invariant
                string_texts(commands@) == log_lines(packed@),
                entries@.len() == i,
                forall|j: int|
                    0 <= j < i ==> sink_gets(
                        self.file_sink() is Some,
                        (#[trigger] entries@[j]).line,
                        file_line(timestamp@, log_lines(packed@)[j]),
                    ) && sink_gets(
                        self.tee_sink() is Some,
                        entries@[j].datagram,
                        tee_datagram(self.id(), timestamp@, log_lines(packed@)[j]),
                    ),
        {
            let command = commands[i].as_str();
            assert(log_lines(packed@)[i as int] == command@);
            let line = if self.file.is_some() {
                let mut line = timestamp.to_owned();
                line.push(' ');
                line.append(command);
                line.push('\n');
                assert(line@ =~= file_line(timestamp@, command@));
                Some(line)
            } else {
                None
            };
            let datagram = if self.tee.is_some() {
                let mut datagram = self.uuid.clone();
                datagram.push(':');
                datagram.append(timestamp);
                datagram.append(": ");
                datagram.append(command);
                assert(datagram@ =~= tee_datagram(self.id(), timestamp@, command@));
                Some(datagram)
            } else {
                None
            };
            entries.push(LogEntry { line, datagram });
        }
        entries
    }
}

} // verus!
