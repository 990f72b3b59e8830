//! What holds of every connection's identifier and of every timestamp.

use vstd::prelude::*;

use crate::command_logger::{
    format_timestamp, format_uuid, hex_digits, identifier_seed, little_endian, padded_decimal,
    timestamp_text, uuid_text,
};
use crate::log_line_laws::hex_value;
use crate::resp_commands::hex_digit;
use crate::text::{decimal, is_digit};
use crate::text_laws::{law_decimal, number_of_digits};

verus! {

/// Whether `c` is a digit in base sixteen, in lowercase.
pub open spec fn is_hex_digit(c: char) -> bool {
    '0' <= c <= '9' || 'a' <= c <= 'f'
}

proof fn lemma_hex_digits(n: nat, width: nat)
    ensures
        hex_digits(n, width).len() == width,
        forall|i: int|
            0 <= i < width ==> is_hex_digit(#[trigger] hex_digits(n, width)[i]),
    decreases width,
{
    if width > 0 {
        lemma_hex_digits(n / 16, (width - 1) as nat);
        assert forall|i: int| 0 <= i < width implies is_hex_digit(
            #[trigger] hex_digits(n, width)[i],
        ) by {
            if i < width - 1 {
                assert(hex_digits(n, width)[i] == hex_digits(n / 16, (width - 1) as nat)[i]);
            }
        }
    }
}

/// An identifier has the shape of a UUID: thirty-six characters, a hyphen behind the
/// eighth digit and behind each four of the next twelve, and digits everywhere else.
pub proof fn law_uuid_shape(v: u128)
    ensures
        uuid_text(v).len() == 36,
        forall|i: int|
            0 <= i < 36 ==> if i == 8 || i == 13 || i == 18 || i == 23 {
                #[trigger] uuid_text(v)[i] == '-'
            } else {
                is_hex_digit(uuid_text(v)[i])
            },
{
    let a = hex_digits((v / 0x1_0000_0000_0000_0000_0000_0000) as nat, 8);
    let b = hex_digits((v / 0x1_0000_0000_0000_0000_0000) as nat, 4);
    let c = hex_digits((v / 0x1_0000_0000_0000_0000) as nat, 4);
    let d = hex_digits((v / 0x1_0000_0000_0000) as nat, 4);
    let e = hex_digits(v as nat, 12);
    lemma_hex_digits((v / 0x1_0000_0000_0000_0000_0000_0000) as nat, 8);
    lemma_hex_digits((v / 0x1_0000_0000_0000_0000_0000) as nat, 4);
    lemma_hex_digits((v / 0x1_0000_0000_0000_0000) as nat, 4);
    lemma_hex_digits((v / 0x1_0000_0000_0000) as nat, 4);
    lemma_hex_digits(v as nat, 12);
    let text = uuid_text(v);
    assert forall|i: int| 0 <= i < 36 implies if i == 8 || i == 13 || i == 18 || i == 23 {
        #[trigger] text[i] == '-'
    } else {
        is_hex_digit(text[i])
    } by {
        if i < 8 {
            assert(text[i] == a[i]);
        } else if 8 < i < 13 {
            assert(text[i] == b[i - 9]);
        } else if 13 < i < 18 {
            assert(text[i] == c[i - 14]);
        } else if 18 < i < 23 {
            assert(text[i] == d[i - 19]);
        } else if 23 < i {
            assert(text[i] == e[i - 24]);
        }
    }
}

/// The number that the last `width` digits of `n` in base sixteen write.
spec fn low_digits(n: nat, width: nat) -> nat
    decreases width,
{
    if width == 0 {
        0
    } else {
        16 * low_digits(n / 16, (width - 1) as nat) + n % 16
    }
}

proof fn lemma_same_hex_digits(n: nat, m: nat, width: nat)
    requires
        hex_digits(n, width) == hex_digits(m, width),
    ensures
        low_digits(n, width) == low_digits(m, width),
    decreases width,
{
    if width > 0 {
        let a = hex_digits(n, width);
        let b = hex_digits(m, width);
        assert(a.drop_last() =~= hex_digits(n / 16, (width - 1) as nat));
        assert(b.drop_last() =~= hex_digits(m / 16, (width - 1) as nat));
        lemma_same_hex_digits(n / 16, m / 16, (width - 1) as nat);
        assert(a.last() == hex_digit(n % 16) && b.last() == hex_digit(m % 16));
        assert(hex_digit(n % 16) as int == if n % 16 < 10 {
            48 + n % 16
        } else {
            87 + n % 16
        });
        assert(hex_digit(m % 16) as int == if m % 16 < 10 {
            48 + m % 16
        } else {
            87 + m % 16
        });
    }
}

proof fn lemma_low_digits_4(n: nat)
    ensures
        low_digits(n, 4) == n % 0x1_0000,
{
    reveal_with_fuel(low_digits, 5);
}

proof fn lemma_low_digits_8(n: nat)
    ensures
        low_digits(n, 8) == n % 0x1_0000_0000,
{
    reveal_with_fuel(low_digits, 9);
}

proof fn lemma_low_digits_12(n: nat)
    ensures
        low_digits(n, 12) == n % 0x1_0000_0000_0000,
{
    reveal_with_fuel(low_digits, 13);
}

proof fn lemma_groups(v: u128)
    ensures
        uuid_text(v).subrange(0, 8) == hex_digits(
            (v / 0x1_0000_0000_0000_0000_0000_0000) as nat,
            8,
        ),
        uuid_text(v).subrange(9, 13) == hex_digits((v / 0x1_0000_0000_0000_0000_0000) as nat, 4),
        uuid_text(v).subrange(14, 18) == hex_digits((v / 0x1_0000_0000_0000_0000) as nat, 4),
        uuid_text(v).subrange(19, 23) == hex_digits((v / 0x1_0000_0000_0000) as nat, 4),
        uuid_text(v).subrange(24, 36) == hex_digits(v as nat, 12),
{
    lemma_hex_digits((v / 0x1_0000_0000_0000_0000_0000_0000) as nat, 8);
    lemma_hex_digits((v / 0x1_0000_0000_0000_0000_0000) as nat, 4);
    lemma_hex_digits((v / 0x1_0000_0000_0000_0000) as nat, 4);
    lemma_hex_digits((v / 0x1_0000_0000_0000) as nat, 4);
    lemma_hex_digits(v as nat, 12);
}

proof fn lemma_same_groups(v: u128, w: u128)
    requires
        (v / 0x1_0000_0000_0000_0000_0000_0000) % 0x1_0000_0000 == (w
            / 0x1_0000_0000_0000_0000_0000_0000) % 0x1_0000_0000,
        (v / 0x1_0000_0000_0000_0000_0000) % 0x1_0000 == (w / 0x1_0000_0000_0000_0000_0000)
            % 0x1_0000,
        (v / 0x1_0000_0000_0000_0000) % 0x1_0000 == (w / 0x1_0000_0000_0000_0000) % 0x1_0000,
        (v / 0x1_0000_0000_0000) % 0x1_0000 == (w / 0x1_0000_0000_0000) % 0x1_0000,
        v % 0x1_0000_0000_0000 == w % 0x1_0000_0000_0000,
    ensures
        v == w,
{
    let a = v as int / 0x1_0000_0000_0000;
    let b = w as int / 0x1_0000_0000_0000;
    assert(v / 0x1_0000_0000_0000_0000 == a / 0x1_0000);
    assert(w / 0x1_0000_0000_0000_0000 == b / 0x1_0000);
    assert(v / 0x1_0000_0000_0000_0000_0000 == a / 0x1_0000 / 0x1_0000);
    assert(w / 0x1_0000_0000_0000_0000_0000 == b / 0x1_0000 / 0x1_0000);
    assert(v / 0x1_0000_0000_0000_0000_0000_0000 == a / 0x1_0000 / 0x1_0000 / 0x1_0000);
    assert(w / 0x1_0000_0000_0000_0000_0000_0000 == b / 0x1_0000 / 0x1_0000 / 0x1_0000);
    assert(a / 0x1_0000 / 0x1_0000 / 0x1_0000 == b / 0x1_0000 / 0x1_0000 / 0x1_0000);
    assert(a / 0x1_0000 / 0x1_0000 == b / 0x1_0000 / 0x1_0000);
    assert(a / 0x1_0000 == b / 0x1_0000);
    assert(a == b);
}

/// Different values have different identifiers.
pub proof fn law_uuids_differ(v: u128, w: u128)
    requires
        uuid_text(v) == uuid_text(w),
    ensures
        v == w,
{
    let (va, wa) = (
        (v / 0x1_0000_0000_0000_0000_0000_0000) as nat,
        (w / 0x1_0000_0000_0000_0000_0000_0000) as nat,
    );
    let (vb, wb) = (
        (v / 0x1_0000_0000_0000_0000_0000) as nat,
        (w / 0x1_0000_0000_0000_0000_0000) as nat,
    );
    let (vc, wc) = ((v / 0x1_0000_0000_0000_0000) as nat, (w / 0x1_0000_0000_0000_0000) as nat);
    let (vd, wd) = ((v / 0x1_0000_0000_0000) as nat, (w / 0x1_0000_0000_0000) as nat);
    lemma_groups(v);
    lemma_groups(w);
    lemma_same_hex_digits(va, wa, 8);
    lemma_same_hex_digits(vb, wb, 4);
    lemma_same_hex_digits(vc, wc, 4);
    lemma_same_hex_digits(vd, wd, 4);
    lemma_same_hex_digits(v as nat, w as nat, 12);
    lemma_low_digits_8(va);
    lemma_low_digits_8(wa);
    lemma_low_digits_4(vb);
    lemma_low_digits_4(wb);
    lemma_low_digits_4(vc);
    lemma_low_digits_4(wc);
    lemma_low_digits_4(vd);
    lemma_low_digits_4(wd);
    lemma_low_digits_12(v as nat);
    lemma_low_digits_12(w as nat);
    lemma_same_groups(v, w);
}

/// Whether `n` has no more than `width` bytes.
spec fn has_width(n: nat, width: nat) -> bool
    decreases width,
{
    if width == 0 {
        n == 0
    } else {
        has_width(n / 256, (width - 1) as nat)
    }
}

proof fn lemma_little_endian_len(n: nat, width: nat)
    ensures
        little_endian(n, width).len() == width,
    decreases width,
{
    if width > 0 {
        lemma_little_endian_len(n / 256, (width - 1) as nat);
    }
}

proof fn lemma_same_bytes(n: nat, m: nat, width: nat)
    requires
        has_width(n, width),
        has_width(m, width),
        little_endian(n, width) == little_endian(m, width),
    ensures
        n == m,
    decreases width,
{
    if width > 0 {
        let a = little_endian(n, width);
        let b = little_endian(m, width);
        assert(a[0] == (n % 256) as u8 && b[0] == (m % 256) as u8);
        assert(a.skip(1) =~= little_endian(n / 256, (width - 1) as nat));
        assert(b.skip(1) =~= little_endian(m / 256, (width - 1) as nat));
        lemma_same_bytes(n / 256, m / 256, (width - 1) as nat);
    }
}

proof fn lemma_u128_width(n: u128)
    ensures
        has_width(n as nat, 16),
{
    reveal_with_fuel(has_width, 17);
}

proof fn lemma_u64_width(n: u64)
    ensures
        has_width(n as nat, 8),
{
    reveal_with_fuel(has_width, 9);
}

/// Identifiers are drawn from different bytes wherever the time, the count, the process or
/// the address differs: within a process the count alone sees to it.
pub proof fn law_seeds_differ(
    nanos: u128,
    count: u64,
    pid: u32,
    stack_addr: u64,
    other_nanos: u128,
    other_count: u64,
    other_pid: u32,
    other_stack_addr: u64,
)
    requires
        identifier_seed(nanos, count, pid, stack_addr) == identifier_seed(
            other_nanos,
            other_count,
            other_pid,
            other_stack_addr,
        ),
    ensures
        nanos == other_nanos,
        count == other_count,
        pid == other_pid,
        stack_addr == other_stack_addr,
{
    let s = identifier_seed(nanos, count, pid, stack_addr);
    let t = identifier_seed(other_nanos, other_count, other_pid, other_stack_addr);
    lemma_little_endian_len(nanos as nat, 16);
    lemma_little_endian_len(count as nat, 8);
    lemma_little_endian_len(pid as nat, 16);
    lemma_little_endian_len(stack_addr as nat, 16);
    lemma_little_endian_len(other_nanos as nat, 16);
    lemma_little_endian_len(other_count as nat, 8);
    lemma_little_endian_len(other_pid as nat, 16);
    lemma_little_endian_len(other_stack_addr as nat, 16);
    assert(s.subrange(0, 16) =~= little_endian(nanos as nat, 16));
    assert(t.subrange(0, 16) =~= little_endian(other_nanos as nat, 16));
    assert(s.subrange(16, 24) =~= little_endian(count as nat, 8));
    assert(t.subrange(16, 24) =~= little_endian(other_count as nat, 8));
    assert(s.subrange(24, 40) =~= little_endian(pid as nat, 16));
    assert(t.subrange(24, 40) =~= little_endian(other_pid as nat, 16));
    assert(s.subrange(40, 56) =~= little_endian(stack_addr as nat, 16));
    assert(t.subrange(40, 56) =~= little_endian(other_stack_addr as nat, 16));
    lemma_u128_width(nanos);
    lemma_u128_width(other_nanos);
    lemma_u64_width(count);
    lemma_u64_width(other_count);
    lemma_u128_width(pid as u128);
    lemma_u128_width(other_pid as u128);
    lemma_u128_width(stack_addr as u128);
    lemma_u128_width(other_stack_addr as u128);
    lemma_same_bytes(nanos as nat, other_nanos as nat, 16);
    lemma_same_bytes(count as nat, other_count as nat, 8);
    lemma_same_bytes(pid as nat, other_pid as nat, 16);
    lemma_same_bytes(stack_addr as nat, other_stack_addr as nat, 16);
}

proof fn lemma_decimal(n: nat)
    ensures
        decimal(n).len() > 0,
        n < 10 ==> decimal(n).len() == 1,
        forall|i: int| 0 <= i < decimal(n).len() ==> is_digit(#[trigger] decimal(n)[i]),
    decreases n,
{
    if n >= 10 {
        lemma_decimal(n / 10);
        assert forall|i: int| 0 <= i < decimal(n).len() implies is_digit(#[trigger] decimal(n)[i]) by {
            if i < decimal(n).len() - 1 {
                assert(decimal(n)[i] == decimal(n / 10)[i]);
            }
        }
    }
}

/// A fraction of a second takes six digits, so that timestamps of seconds with as many
/// digits have the same length.
pub proof fn law_timestamp_shape(seconds: nat, micros: nat)
    requires
        micros < 1_000_000,
    ensures
        timestamp_text(seconds, micros).len() == decimal(seconds).len() + 7,
        timestamp_text(seconds, micros)[decimal(seconds).len() as int] == '.',
        forall|i: int|
            0 <= i < timestamp_text(seconds, micros).len() && i != decimal(seconds).len()
                ==> is_digit(#[trigger] timestamp_text(seconds, micros)[i]),
{
    reveal_with_fuel(padded_decimal, 7);
    lemma_decimal(seconds);
    lemma_decimal(micros / 100_000);
    let fraction = padded_decimal(micros, 6);
    assert(decimal(micros / 10 / 10 / 10 / 10 / 10).len() == 1) by {
        lemma_decimal(micros / 10 / 10 / 10 / 10 / 10);
    }
    assert(fraction.len() == 6);
    assert forall|i: int| 0 <= i < 6 implies is_digit(#[trigger] fraction[i]) by {
        lemma_decimal(micros / 10 / 10 / 10 / 10 / 10);
    }
    assert forall|i: int|
        0 <= i < timestamp_text(seconds, micros).len() && i != decimal(
            seconds,
        ).len() implies is_digit(#[trigger] timestamp_text(seconds, micros)[i]) by {
        if i < decimal(seconds).len() {
            assert(timestamp_text(seconds, micros)[i] == decimal(seconds)[i]);
        } else {
            assert(timestamp_text(seconds, micros)[i] == fraction[i - decimal(seconds).len() - 1]);
        }
    }
}

/// The number that digits in base sixteen write, where hyphens between them do not count.
pub open spec fn hex_number(text: Seq<char>) -> int
    decreases text.len(),
{
    if text.len() == 0 {
        0
    } else if text.last() == '-' {
        hex_number(text.drop_last())
    } else {
        16 * hex_number(text.drop_last()) + hex_value(text.last())
    }
}

/// `n` without its last `width` digits in base sixteen.
spec fn without_digits(n: nat, width: nat) -> nat
    decreases width,
{
    if width == 0 {
        n
    } else {
        without_digits(n / 16, (width - 1) as nat)
    }
}

proof fn lemma_hex_number_of_group(before: Seq<char>, n: nat, width: nat)
    requires
        hex_number(before) == without_digits(n, width),
    ensures
        hex_number(before + hex_digits(n, width)) == n,
    decreases width,
{
    let all = before + hex_digits(n, width);
    if width == 0 {
        assert(all =~= before);
    } else {
        lemma_hex_number_of_group(before, n / 16, (width - 1) as nat);
        assert(all.drop_last() =~= before + hex_digits(n / 16, (width - 1) as nat));
        let digit = n % 16;
        assert(all.last() == hex_digit(digit));
        assert(hex_digit(digit) as int == if digit < 10 {
            48 + digit
        } else {
            87 + digit
        });
    }
}

proof fn lemma_without_4_digits(n: nat)
    ensures
        without_digits(n, 4) == n / 0x1_0000,
{
    reveal_with_fuel(without_digits, 5);
}

proof fn lemma_without_8_digits(n: nat)
    ensures
        without_digits(n, 8) == n / 0x1_0000_0000,
{
    reveal_with_fuel(without_digits, 9);
}

proof fn lemma_without_12_digits(n: nat)
    ensures
        without_digits(n, 12) == n / 0x1_0000_0000_0000,
{
    reveal_with_fuel(without_digits, 13);
}

proof fn lemma_hyphen(text: Seq<char>)
    ensures
        hex_number(text + seq!['-']) == hex_number(text),
{
    assert((text + seq!['-']).drop_last() =~= text);
}

/// The digits of an identifier write its value in base sixteen.
pub proof fn law_uuid_value(v: u128)
    ensures
        hex_number(uuid_text(v)) == v,
{
    let na = (v / 0x1_0000_0000_0000_0000_0000_0000) as nat;
    let nb = (v / 0x1_0000_0000_0000_0000_0000) as nat;
    let nc = (v / 0x1_0000_0000_0000_0000) as nat;
    let nd = (v / 0x1_0000_0000_0000) as nat;
    let a = hex_digits(na, 8);
    let b = a + seq!['-'] + hex_digits(nb, 4);
    let c = b + seq!['-'] + hex_digits(nc, 4);
    let d = c + seq!['-'] + hex_digits(nd, 4);
    lemma_without_8_digits(na);
    lemma_without_4_digits(nb);
    lemma_without_4_digits(nc);
    lemma_without_4_digits(nd);
    lemma_without_12_digits(v as nat);
    assert(na / 0x1_0000_0000 == 0);
    assert(nb / 0x1_0000 == na);
    assert(nc / 0x1_0000 == nb);
    assert(nd / 0x1_0000 == nc);
    lemma_hex_number_of_group(Seq::empty(), na, 8);
    assert(Seq::<char>::empty() + a =~= a);
    lemma_hyphen(a);
    lemma_hex_number_of_group(a + seq!['-'], nb, 4);
    lemma_hyphen(b);
    lemma_hex_number_of_group(b + seq!['-'], nc, 4);
    lemma_hyphen(c);
    lemma_hex_number_of_group(c + seq!['-'], nd, 4);
    lemma_hyphen(d);
    lemma_hex_number_of_group(d + seq!['-'], v as nat, 12);
    assert(uuid_text(v) =~= d + seq!['-'] + hex_digits(v as nat, 12));
}

proof fn lemma_padded_decimal(n: nat, width: nat)
    ensures
        number_of_digits(padded_decimal(n, width)) == n,
        padded_decimal(n, width).len() >= width,
        padded_decimal(n, width).len() > width && padded_decimal(n, width).len() > 1
            ==> padded_decimal(n, width)[0] != '0',
        forall|i: int|
            0 <= i < padded_decimal(n, width).len() ==> 48 <= #[trigger] padded_decimal(
                n,
                width,
            )[i] as int <= 57,
    decreases width,
{
    if width <= 1 {
        law_decimal(n);
    } else {
        let before = padded_decimal(n / 10, (width - 1) as nat);
        let all = padded_decimal(n, width);
        lemma_padded_decimal(n / 10, (width - 1) as nat);
        assert(all.drop_last() =~= before);
        assert(all.last() as int == 48 + n % 10);
        assert(all[0] == before[0]);
        assert forall|i: int| 0 <= i < all.len() implies 48 <= #[trigger] all[i] as int <= 57 by {
            if i < before.len() {
                assert(all[i] == before[i]);
            }
        }
    }
}

/// A timestamp writes the seconds, without leading zeros, a point, and the microseconds in six
/// digits or, where they take more, in as many as they take.
pub proof fn law_timestamp_value(seconds: nat, micros: nat) -> (point: int)
    ensures
        0 < point < timestamp_text(seconds, micros).len(),
        timestamp_text(seconds, micros)[point] == '.',
        number_of_digits(timestamp_text(seconds, micros).subrange(0, point)) == seconds,
        point > 1 ==> timestamp_text(seconds, micros)[0] != '0',
        number_of_digits(
            timestamp_text(seconds, micros).subrange(
                point + 1,
                timestamp_text(seconds, micros).len() as int,
            ),
        ) == micros,
        timestamp_text(seconds, micros).len() >= point + 7,
        timestamp_text(seconds, micros).len() > point + 7 ==> timestamp_text(seconds, micros)[point
            + 1] != '0',
        forall|i: int|
            0 <= i < timestamp_text(seconds, micros).len() && i != point ==> 48
                <= #[trigger] timestamp_text(seconds, micros)[i] as int <= 57,
{
    let text = timestamp_text(seconds, micros);
    let point = decimal(seconds).len() as int;
    law_decimal(seconds);
    lemma_padded_decimal(micros, 6);
    let fraction = padded_decimal(micros, 6);
    assert(text.subrange(0, point) =~= decimal(seconds));
    assert(text.subrange(point + 1, text.len() as int) =~= fraction);
    assert(text[0] == decimal(seconds)[0]);
    assert(text[point + 1] == fraction[0]);
    assert forall|i: int| 0 <= i < text.len() && i != point implies 48 <= #[trigger] text[i] as int
        <= 57 by {
        if i < point {
            assert(text[i] == decimal(seconds)[i]);
        } else {
            assert(text[i] == fraction[i - point - 1]);
        }
    }
    point
}

/// The number that bytes write in base two hundred and fifty-six, the lowest first.
pub open spec fn number_of_bytes(bytes: Seq<u8>) -> int
    decreases bytes.len(),
{
    if bytes.len() == 0 {
        0
    } else {
        bytes[0] as int + 256 * number_of_bytes(bytes.drop_first())
    }
}

proof fn lemma_number_of_bytes(n: nat, width: nat)
    requires
        has_width(n, width),
    ensures
        number_of_bytes(little_endian(n, width)) == n,
    decreases width,
{
    if width > 0 {
        let bytes = little_endian(n, width);
        lemma_number_of_bytes(n / 256, (width - 1) as nat);
        assert(bytes.drop_first() =~= little_endian(n / 256, (width - 1) as nat));
        assert(bytes[0] == (n % 256) as u8);
    }
}

/// An identifier is drawn from the time in sixteen bytes, the count in eight, the process in
/// sixteen and the address in sixteen, each with its lowest byte first.
pub proof fn law_seed_bytes(nanos: u128, count: u64, pid: u32, stack_addr: u64)
    ensures
        identifier_seed(nanos, count, pid, stack_addr).len() == 56,
        number_of_bytes(identifier_seed(nanos, count, pid, stack_addr).subrange(0, 16)) == nanos,
        number_of_bytes(identifier_seed(nanos, count, pid, stack_addr).subrange(16, 24)) == count,
        number_of_bytes(identifier_seed(nanos, count, pid, stack_addr).subrange(24, 40)) == pid,
        number_of_bytes(identifier_seed(nanos, count, pid, stack_addr).subrange(40, 56))
            == stack_addr,
{
    let seed = identifier_seed(nanos, count, pid, stack_addr);
    lemma_little_endian_len(nanos as nat, 16);
    lemma_little_endian_len(count as nat, 8);
    lemma_little_endian_len(pid as nat, 16);
    lemma_little_endian_len(stack_addr as nat, 16);
    assert(seed.subrange(0, 16) =~= little_endian(nanos as nat, 16));
    assert(seed.subrange(16, 24) =~= little_endian(count as nat, 8));
    assert(seed.subrange(24, 40) =~= little_endian(pid as nat, 16));
    assert(seed.subrange(40, 56) =~= little_endian(stack_addr as nat, 16));
    lemma_u128_width(nanos);
    lemma_u64_width(count);
    lemma_u128_width(pid as u128);
    lemma_u128_width(stack_addr as u128);
    lemma_number_of_bytes(nanos as nat, 16);
    lemma_number_of_bytes(count as nat, 8);
    lemma_number_of_bytes(pid as nat, 16);
    lemma_number_of_bytes(stack_addr as nat, 16);
}

/// A formatted identifier has thirty-six characters, hyphens at four places, and digits in
/// base sixteen elsewhere that write the value.
pub proof fn law_formatted_uuids(v: u128, uuid: String)
    requires
        call_ensures(format_uuid, (v,), uuid),
    ensures
        uuid@.len() == 36,
        forall|i: int|
            0 <= i < 36 ==> if i == 8 || i == 13 || i == 18 || i == 23 {
                #[trigger] uuid@[i] == '-'
            } else {
                0 <= hex_value(uuid@[i])
            },
        hex_number(uuid@) == v,
{
    law_uuid_shape(v);
    law_uuid_value(v);
    assert forall|i: int| 0 <= i < 36 implies if i == 8 || i == 13 || i == 18 || i == 23 {
        #[trigger] uuid@[i] == '-'
    } else {
        0 <= hex_value(uuid@[i])
    } by {
        assert(uuid_text(v)[i] == uuid@[i]);
    }
}

/// A formatted time writes its seconds, a point and its microseconds; a time before the epoch
/// is written as the epoch.
pub proof fn law_formatted_times(
    since_epoch: Option<(u64, u32)>,
    timestamp: String,
) -> (point: int)
    requires
        call_ensures(format_timestamp, (since_epoch,), timestamp),
    ensures
        0 < point < timestamp@.len(),
        timestamp@[point] == '.',
        point > 1 ==> timestamp@[0] != '0',
        timestamp@.len() >= point + 7,
        timestamp@.len() > point + 7 ==> timestamp@[point + 1] != '0',
        forall|i: int|
            0 <= i < timestamp@.len() && i != point ==> 48 <= #[trigger] timestamp@[i] as int <= 57,
        since_epoch matches Some((seconds, micros)) ==> {
            &&& number_of_digits(timestamp@.subrange(0, point)) == seconds
            &&& number_of_digits(timestamp@.subrange(point + 1, timestamp@.len() as int)) == micros
        },
        since_epoch is None ==> {
            &&& number_of_digits(timestamp@.subrange(0, point)) == 0
            &&& number_of_digits(timestamp@.subrange(point + 1, timestamp@.len() as int)) == 0
        },
{
    match since_epoch {
        Some((seconds, micros)) => law_timestamp_value(seconds as nat, micros as nat),
        None => law_timestamp_value(0, 0),
    }
}

} // verus!
