//! Hex-dump formatting of raw memory for the memory inspector: sixteen bytes
//! a line, as an address, the bytes in hex and the bytes as ASCII.
use vstd::prelude::*;
use crate::text::{hex_digits, lemma_hex_digits_len, pow16, push_char, push_hex_padded, repeated, zero_padded};

verus! {

/// The width, in characters, that the hex column is padded to.
pub const HEX_ROW_WIDTH: usize = 24;

/// Bytes shown on one line.
pub const BYTES_PER_LINE: usize = 16;

/// A byte as two lowercase hex digits.
pub open spec fn byte_hex(b: u8) -> Seq<char> {
    zero_padded(hex_digits(b as nat), 2)
}

/// The hex column of a line: each byte as two digits and a space, with one
/// more space before the ninth byte.
pub open spec fn hex_span(chunk: Seq<u8>) -> Seq<char>
    decreases chunk.len(),
{
    if chunk.len() == 0 {
        Seq::empty()
    } else {
        let gap = if chunk.len() - 1 == 8 {
            seq![' ']
        } else {
            Seq::empty()
        };
        hex_span(chunk.drop_last()) + gap + byte_hex(chunk.last()) + seq![' ']
    }
}

/// How a byte shows in the ASCII column: printable ASCII and the space as
/// themselves, everything else as a dot.
pub open spec fn ascii_char(b: u8) -> char {
    if (0x21 <= b && b <= 0x7e) || b == 0x20 {
        b as char
    } else {
        '.'
    }
}

/// `s` padded with spaces on the right to `width` characters when shorter.
pub open spec fn space_padded(s: Seq<char>, width: nat) -> Seq<char> {
    if s.len() < width {
        s + repeated(' ', (width - s.len()) as nat)
    } else {
        s
    }
}

/// One line of the dump for the bytes `chunk` found at `addr`.
pub open spec fn dump_line(addr: nat, chunk: Seq<u8>) -> Seq<char> {
    "0x"@ + zero_padded(hex_digits(addr), 12) + ":  "@ + space_padded(
        hex_span(chunk),
        HEX_ROW_WIDTH as nat,
    ) + " |"@ + chunk.map_values(|b: u8| ascii_char(b)) + "|"@
}

/// The number of lines a dump of `len` bytes takes.
pub open spec fn line_count(len: nat) -> nat {
    (len + 15) / 16
}

/// The bytes shown on line `k`.
pub open spec fn line_bytes(bytes: Seq<u8>, k: int) -> Seq<u8> {
    let start = 16 * k;
    let end = if start + 16 <= bytes.len() {
        start + 16
    } else {
        bytes.len() as int
    };
    bytes.subrange(start, end)
}

/// The address of every line fits in `usize`.
pub open spec fn addresses_fit(address: usize, len: nat) -> bool {
    len == 0 || address + 16 * (line_count(len) - 1) <= usize::MAX
}

proof fn lemma_byte_hex_len(b: u8)
    ensures
        byte_hex(b).len() == 2,
{
    reveal_with_fuel(pow16, 3);
    lemma_hex_digits_len(b as nat, 2);
}

proof fn lemma_hex_span_len(chunk: Seq<u8>)
    ensures
        hex_span(chunk).len() == 3 * chunk.len() + (if chunk.len() > 8 {
            1int
        } else {
            0int
        }),
    decreases chunk.len(),
{
    if chunk.len() > 0 {
        lemma_hex_span_len(chunk.drop_last());
        lemma_byte_hex_len(chunk.last());
    }
}

/// The dump line for `bytes[start..end]`, found at `addr`.
fn dump_line_of(addr: usize, bytes: &[u8], start: usize, end: usize) -> (line: String)
    requires
        start <= end <= bytes@.len(),
        end - start <= 16,
    ensures
        line@ == dump_line(addr as nat, bytes@.subrange(start as int, end as int)),
{
    let ghost chunk = bytes@.subrange(start as int, end as int);
    let mut hex = String::new();
    let mut ascii = String::new();
    let mut i: usize = start;
    while i < end
        invariant
            start <= i <= end <= bytes@.len(),
            end - start <= 16,
            chunk == bytes@.subrange(start as int, end as int),
            hex@ == hex_span(chunk.take(i - start)),
            ascii@ == chunk.take(i - start).map_values(|b: u8| ascii_char(b)),
        decreases end - i,
    {
        let b = bytes[i];
        let ghost before = hex@;
        if i - start == 8 {
            push_char(&mut hex, ' ');
        }
        push_hex_padded(&mut hex, b as u64, 2);
        push_char(&mut hex, ' ');
        if (0x21 <= b && b <= 0x7e) || b == 0x20 {
            push_char(&mut ascii, b as char);
        } else {
            push_char(&mut ascii, '.');
        }
        proof {
            let t = chunk.take(i - start + 1);
            assert(t.drop_last() =~= chunk.take(i - start));
            assert(t.last() == b);
            assert(hex@ =~= hex_span(t));
            assert(ascii@ =~= t.map_values(|b: u8| ascii_char(b)));
        }
        i = i + 1;
    }
    proof {
        assert(chunk.take(end - start) =~= chunk);
        lemma_hex_span_len(chunk);
    }
    let hex_len = end - start;
    let used = 3 * hex_len + if hex_len > 8 {
        1
    } else {
        0
    };
    if used < HEX_ROW_WIDTH {
        crate::text::push_repeated(&mut hex, ' ', HEX_ROW_WIDTH - used);
    }
    let mut line = String::from_str("0x");
    push_hex_padded(&mut line, addr as u64, 12);
    line.append(":  ");
    line.append(hex.as_str());
    line.append(" |");
    line.append(ascii.as_str());
    line.append("|");
    proof {
        reveal_strlit("0x");
        reveal_strlit(":  ");
        reveal_strlit(" |");
        reveal_strlit("|");
    }
    assert(line@ =~= dump_line(addr as nat, chunk));
    line
}

/// The hex dump of `bytes` read at `address`: sixteen bytes a line, each
/// line giving the address, the bytes in hex and the bytes as ASCII; a
/// single notice line when no bytes were read.
pub fn format_hex_dump(address: usize, bytes: &[u8]) -> (lines: Vec<String>)
    requires
        addresses_fit(address, bytes@.len()),
    ensures
        bytes@.len() == 0 ==> lines@.len() == 1 && lines@[0]@ == "  <no bytes read>"@,
        bytes@.len() > 0 ==> {
            &&& lines@.len() == line_count(bytes@.len())
            &&& forall|k: int|
                0 <= k < lines@.len() ==> #[trigger] lines@[k]@ == dump_line(
                    (address + 16 * k) as nat,
                    line_bytes(bytes@, k),
                )
        },
{
    let mut lines: Vec<String> = Vec::new();
    let n = bytes.len();
    if n == 0 {
        lines.push(String::from_str("  <no bytes read>"));
        return lines;
    }
    let count = n / 16 + if n % 16 == 0 {
        0
    } else {
        1
    };
    assert(count == line_count(n as nat));
    let mut k: usize = 0;
    while k < count
        invariant
            n == bytes@.len(),
            n > 0,
            count == line_count(n as nat),
            addresses_fit(address, n as nat),
            k <= count,
            lines@.len() == k,
            forall|j: int|
                0 <= j < k ==> #[trigger] lines@[j]@ == dump_line(
                    (address + 16 * j) as nat,
                    line_bytes(bytes@, j),
                ),
        decreases count - k,
    {
        let start = 16 * k;
        let end = if n - start >= 16 {
            start + 16
        } else {
            n
        };
        let addr = address + start;
        let line = dump_line_of(addr, bytes, start, end);
        lines.push(line);
        k = k + 1;
    }
    lines
}

/// The ASCII column of a dump line: the line ends with '|', then one
/// character per byte, then '|'. A byte from 0x20 to 0x7e (space and the
/// printable ASCII characters) shows as itself; any other byte shows as '.'.
pub proof fn lemma_ascii_column(addr: nat, chunk: Seq<u8>, i: int)
    requires
        0 <= i < chunk.len(),
    ensures
        ({
            let line = dump_line(addr, chunk);
            let c = chunk[i];
            &&& line.len() >= chunk.len() + 2
            &&& line[line.len() - 1] == '|'
            &&& line[line.len() - 2 - chunk.len()] == '|'
            &&& line[line.len() - 1 - chunk.len() + i] == if 0x20 <= c && c <= 0x7e {
                c as char
            } else {
                '.'
            }
        }),
{
    reveal_strlit(" |");
    reveal_strlit("|");
    let head = "0x"@ + zero_padded(hex_digits(addr), 12) + ":  "@ + space_padded(
        hex_span(chunk),
        HEX_ROW_WIDTH as nat,
    ) + " |"@;
    let col = chunk.map_values(|b: u8| ascii_char(b));
    let line = dump_line(addr, chunk);
    assert(line == head + col + "|"@);
    assert(head[head.len() - 1] == '|');
    assert(line[head.len() + i] == col[i]);
}

} // verus!
