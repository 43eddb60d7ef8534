//! Hex dumps of octet slices: offset column, grouped hex octets and an ASCII column,
//! and side-by-side comparisons of two buffers.
use vstd::prelude::*;
use vstd::string::*;
use crate::decimal::push_char;

verus! {


/// The uppercase hex digit of `d` (below 16).
pub open spec fn hex_digit(d: nat) -> char {
    if d < 10 {
        (d + 48) as char
    } else {
        (d + 55) as char
    }
}

/// The two uppercase hex digits of an octet (`{:02X}`).
pub open spec fn hex_octet(b: u8) -> Seq<char> {
    seq![hex_digit(b as nat / 16), hex_digit(b as nat % 16)]
}

/// The uppercase hex digits of `n`, padded with leading zeros to at least `width`
/// digits, and at least one digit (`{:0width$X}`).
pub open spec fn hex_padded(n: nat, width: nat) -> Seq<char>
    decreases n + width,
{
    if n < 16 && width <= 1 {
        seq![hex_digit(n)]
    } else {
        hex_padded(n / 16, if width > 0 { (width - 1) as nat } else { 0 }).push(hex_digit(n % 16))
    }
}

/// Whether `c` is an uppercase hex digit: `0` to `9` or `A` to `F`.
pub open spec fn is_hex_char(c: char) -> bool {
    (48 <= (c as int) && (c as int) <= 57) || (65 <= (c as int) && (c as int) <= 70)
}

/// The value of an uppercase hex digit.
pub open spec fn hex_char_value(c: char) -> int {
    if (c as int) <= 57 {
        c as int - 48
    } else {
        c as int - 55
    }
}

/// Every character is an uppercase hex digit.
pub open spec fn is_hex_numeral(s: Seq<char>) -> bool {
    forall|i: int| 0 <= i < s.len() ==> is_hex_char(#[trigger] s[i])
}

/// The number that a string of hex digits reads as, most significant digit first.
pub open spec fn hex_value(s: Seq<char>) -> int
    decreases s.len(),
{
    if s.len() == 0 {
        0
    } else {
        hex_value(s.drop_last()) * 16 + hex_char_value(s.last())
    }
}

proof fn lemma_hex_digit(d: nat)
    requires
        d < 16,
    ensures
        is_hex_char(hex_digit(d)),
        hex_char_value(hex_digit(d)) == d,
{
}

/// The padded hex digits of `n` read back as `n`; there are at least `width` of them and
/// at least one, and exactly `width` when `n` is below `16^width`.
pub proof fn lemma_hex_padded(n: nat, width: nat)
    ensures
        is_hex_numeral(hex_padded(n, width)),
        hex_value(hex_padded(n, width)) == n,
        hex_padded(n, width).len() >= width,
        hex_padded(n, width).len() >= 1,
        1 <= width && n < vstd::arithmetic::power::pow(16, width) ==> hex_padded(n, width).len() == width,
    decreases n + width,
{
    let h = hex_padded(n, width);
    if n < 16 && width <= 1 {
        lemma_hex_digit(n);
        assert(h.drop_last() =~= Seq::<char>::empty());
        assert(hex_value(Seq::<char>::empty()) == 0);
        assert(hex_value(h) == hex_value(h.drop_last()) * 16 + hex_char_value(h.last()));
    } else {
        let w: nat = if width > 0 { (width - 1) as nat } else { 0 };
        lemma_hex_padded(n / 16, w);
        lemma_hex_digit(n % 16);
        let front = hex_padded(n / 16, w);
        assert(h == front.push(hex_digit(n % 16)));
        assert(h.drop_last() =~= front);
        assert(hex_value(h) == hex_value(front) * 16 + hex_char_value(hex_digit(n % 16)));
        assert(n == (n / 16) * 16 + n % 16);
        assert forall|i: int| 0 <= i < h.len() implies is_hex_char(#[trigger] h[i]) by {
            if i < front.len() {
                assert(h[i] == front[i]);
            }
        }
        if 1 <= width && n < vstd::arithmetic::power::pow(16, width) {
            reveal(vstd::arithmetic::power::pow);
            if width == 1 {
                assert(vstd::arithmetic::power::pow(16, 0) == 1);
                assert(false);
            }
            assert(n / 16 < vstd::arithmetic::power::pow(16, w));
        }
    }
}

/// `n` space characters.
pub open spec fn spaces(n: nat) -> Seq<char> {
    Seq::new(n, |i: int| ' ')
}

/// Whether an octet shows as itself in the ASCII column: a graphic ASCII character or a space.
pub open spec fn is_shown(b: u8) -> bool {
    (0x21 <= b && b <= 0x7e) || b == 0x20
}

/// The ASCII-column character of an octet: itself when shown, else `.`.
pub open spec fn ascii_char(b: u8) -> char {
    if is_shown(b) {
        b as char
    } else {
        '.'
    }
}

/// The ASCII column of a chunk.
pub open spec fn ascii_column(chunk: Seq<u8>) -> Seq<char> {
    chunk.map_values(|b: u8| ascii_char(b))
}

/// What precedes octet `j` of a line: nothing for the first, two spaces at the start
/// of each group, else the separator.
pub open spec fn octet_gap(j: nat, separator: Seq<char>, group_size: nat) -> Seq<char> {
    if j == 0 {
        Seq::<char>::empty()
    } else if j % group_size == 0 {
        seq![' ', ' ']
    } else {
        separator
    }
}

/// The hex column of a chunk: each octet as `prefix` and two hex digits, separated by
/// `separator`, with two spaces between groups of `group_size` octets.
pub open spec fn hex_column(
    chunk: Seq<u8>,
    prefix: Seq<char>,
    separator: Seq<char>,
    group_size: nat,
) -> Seq<char>
    decreases chunk.len(),
{
    if chunk.len() == 0 {
        Seq::<char>::empty()
    } else {
        hex_column(chunk.drop_last(), prefix, separator, group_size) + octet_gap(
            (chunk.len() - 1) as nat,
            separator,
            group_size,
        ) + prefix + hex_octet(chunk.last())
    }
}

/// Like `hex_column`, with each octet that differs from the octet at the same index of
/// `expected` wrapped in the ANSI red colour sequence and the reset sequence.
pub open spec fn hex_column_diff(
    chunk: Seq<u8>,
    expected: Seq<u8>,
    prefix: Seq<char>,
    separator: Seq<char>,
    group_size: nat,
) -> Seq<char>
    decreases chunk.len(),
{
    if chunk.len() == 0 {
        Seq::<char>::empty()
    } else {
        let j = (chunk.len() - 1) as nat;
        let octet = prefix + hex_octet(chunk.last());
        let differing = j < expected.len() && chunk.last() != expected[j as int];
        hex_column_diff(chunk.drop_last(), expected, prefix, separator, group_size) + octet_gap(
            j,
            separator,
            group_size,
        ) + if differing {
            red_on() + octet + color_reset()
        } else {
            octet
        }
    }
}

/// The ANSI sequence that starts red text.
pub open spec fn red_on() -> Seq<char> {
    seq!['\x1b', '[', '3', '1', 'm']
}

/// The ANSI sequence that resets the colour.
pub open spec fn color_reset() -> Seq<char> {
    seq!['\x1b', '[', '0', 'm']
}

/// Octets of `buf` on line `line` when each line holds `per_line` octets.
pub open spec fn line_chunk(buf: Seq<u8>, per_line: nat, line: nat) -> Seq<u8> {
    let start = line * per_line;
    let end = if (line + 1) * per_line <= buf.len() {
        (line + 1) * per_line
    } else {
        buf.len()
    };
    if start <= buf.len() {
        buf.subrange(start as int, end as int)
    } else {
        Seq::empty()
    }
}

/// Number of lines needed for `len` octets at `per_line` octets per line.
pub open spec fn line_count(len: nat, per_line: nat) -> nat {
    ((len + per_line - 1) as nat) / per_line
}

/// Spaces that stand in for the octets missing from a short last line, so that the
/// ASCII column lines up: each missing octet takes the prefix, two digits and the
/// separator (`per_octet` characters), and each missing whole group one space more.
pub open spec fn line_padding(chunk_len: nat, per_line: nat, group_size: nat, per_octet: nat) -> nat {
    if chunk_len < per_line {
        let missing = (per_line - chunk_len) as nat;
        (missing / group_size) * (group_size * per_octet + 1) + (missing % group_size) * per_octet
    } else {
        0
    }
}

/// One line of a hex dump.
pub open spec fn dump_line(
    buf: Seq<u8>,
    prefix: &str,
    separator: &str,
    per_line: nat,
    group_size: nat,
    line: nat,
) -> Seq<char> {
    let chunk = line_chunk(buf, per_line, line);
    let per_octet = prefix.spec_bytes().len() + 2 + separator.spec_bytes().len();
    hex_padded(line * per_line, 8) + seq![' ', ' '] + hex_column(
        chunk,
        prefix@,
        separator@,
        group_size,
    ) + spaces(line_padding(chunk.len(), per_line, group_size, per_octet)) + seq![' ', ' ']
        + ascii_column(chunk)
}

/// Each line of a hex dump starts with the position in `buf` of its first octet
/// (`line * per_line`) in uppercase hex digits, at least eight of them, followed by two
/// spaces; a position below 2^32 takes exactly eight digits.
pub proof fn lemma_dump_line_offset(
    buf: Seq<u8>,
    prefix: &str,
    separator: &str,
    per_line: nat,
    group_size: nat,
    line: nat,
)
    ensures
        ({
            let d = dump_line(buf, prefix, separator, per_line, group_size, line);
            &&& exists|k: int|
                8 <= k && k + 1 < d.len() && d[k] == ' ' && d[k + 1] == ' ' && #[trigger] is_hex_numeral(d.take(k))
                    && hex_value(d.take(k)) == line * per_line
            &&& line * per_line < 0x1_0000_0000 ==> {
                &&& is_hex_numeral(d.take(8))
                &&& hex_value(d.take(8)) == line * per_line
                &&& d[8] == ' ' && d[9] == ' '
            }
        }),
{
    let d = dump_line(buf, prefix, separator, per_line, group_size, line);
    let n = line * per_line;
    let h = hex_padded(n, 8);
    lemma_hex_padded(n, 8);
    let k = h.len() as int;
    assert(d[k] == ' ' && d[k + 1] == ' ');
    assert(d.take(k) =~= h);
    assert(is_hex_numeral(d.take(k)));
    if n < 0x1_0000_0000 {
        reveal_with_fuel(vstd::arithmetic::power::pow, 9);
        assert(vstd::arithmetic::power::pow(16, 8) == 0x1_0000_0000);
        assert(k == 8);
    }
}

/// The first `lines` lines of a hex dump, each but the last of the whole dump ended by a newline.
pub open spec fn dump_lines(
    buf: Seq<u8>,
    prefix: &str,
    separator: &str,
    per_line: nat,
    group_size: nat,
    lines: nat,
) -> Seq<char>
    decreases lines,
{
    if lines == 0 {
        Seq::<char>::empty()
    } else {
        let line = (lines - 1) as nat;
        dump_lines(buf, prefix, separator, per_line, group_size, line) + dump_line(
            buf,
            prefix,
            separator,
            per_line,
            group_size,
            line,
        ) + if line + 1 < line_count(buf.len(), per_line) {
            seq!['\n']
        } else {
            Seq::<char>::empty()
        }
    }
}

/// The whole hex dump of `buf`.
pub open spec fn hex_dump(
    buf: Seq<u8>,
    prefix: &str,
    separator: &str,
    per_line: nat,
    group_size: nat,
) -> Seq<char> {
    dump_lines(buf, prefix, separator, per_line, group_size, line_count(buf.len(), per_line))
}

fn hex_digit_char(d: u8) -> (c: char)
    requires
        d < 16,
    ensures
        c == hex_digit(d as nat),
{
    if d < 10 {
        (d + 48) as char
    } else {
        (d + 55) as char
    }
}

pub(crate) fn push_hex_octet(s: &mut String, b: u8)
    ensures
        final(s)@ == old(s)@ + hex_octet(b),
{
    push_char(s, hex_digit_char(b / 16));
    push_char(s, hex_digit_char(b % 16));
}

fn push_hex_padded(s: &mut String, n: usize, width: usize)
    ensures
        final(s)@ == old(s)@ + hex_padded(n as nat, width as nat),
    decreases n + width,
{
    if n < 16 && width <= 1 {
        push_char(s, hex_digit_char(n as u8));
    } else {
        let w: usize = if width > 0 {
            width - 1
        } else {
            0
        };
        push_hex_padded(s, n / 16, w);
        push_char(s, hex_digit_char((n % 16) as u8));
    }
}

fn push_spaces(s: &mut String, n: usize)
    ensures
        final(s)@ == old(s)@ + spaces(n as nat),
{
    let ghost start = s@;
    let mut i: usize = 0;
    while i < n
        invariant
            i <= n,
            s@ == start + spaces(i as nat),
        decreases n - i,
    {
        push_char(s, ' ');
        i = i + 1;
        assert(s@ =~= start + spaces(i as nat));
    }
}

fn push_hex_column(s: &mut String, chunk: &[u8], prefix: &str, separator: &str, group_size: usize)
    requires
        group_size > 0,
    ensures
        final(s)@ == old(s)@ + hex_column(chunk@, prefix@, separator@, group_size as nat),
{
    let ghost start = s@;
    let mut j: usize = 0;
    while j < chunk.len()
        invariant
            j <= chunk.len(),
            group_size > 0,
            s@ == start + hex_column(chunk@.take(j as int), prefix@, separator@, group_size as nat),
        decreases chunk.len() - j,
    {
        let ghost before = s@;
        if j > 0 && j % group_size == 0 {
            push_char(s, ' ');
            push_char(s, ' ');
        } else if j > 0 {
            s.append(separator);
        }
        assert(s@ =~= before + octet_gap(j as nat, separator@, group_size as nat));
        s.append(prefix);
        push_hex_octet(s, chunk[j]);
        assert(chunk@.take(j + 1).drop_last() =~= chunk@.take(j as int));
        assert(s@ =~= start + hex_column(
            chunk@.take(j + 1),
            prefix@,
            separator@,
            group_size as nat,
        ));
        j = j + 1;
    }
    assert(chunk@.take(chunk.len() as int) =~= chunk@);
}

/// The octet text of `hex_column_diff`: coloured when it differs.
pub open spec fn diff_octet(prefix: Seq<char>, b: u8, differing: bool) -> Seq<char> {
    if differing {
        red_on() + prefix + hex_octet(b) + color_reset()
    } else {
        prefix + hex_octet(b)
    }
}

fn push_diff_octet(s: &mut String, prefix: &str, b: u8, differing: bool)
    ensures
        final(s)@ == old(s)@ + diff_octet(prefix@, b, differing),
{
    let ghost start = s@;
    if differing {
        push_char(s, '\x1b');
        push_char(s, '[');
        push_char(s, '3');
        push_char(s, '1');
        push_char(s, 'm');
    }
    s.append(prefix);
    push_hex_octet(s, b);
    if differing {
        push_char(s, '\x1b');
        push_char(s, '[');
        push_char(s, '0');
        push_char(s, 'm');
    }
    assert(s@ =~= start + diff_octet(prefix@, b, differing));
}

proof fn lemma_hex_column_diff_step(
    chunk: Seq<u8>,
    expected: Seq<u8>,
    prefix: Seq<char>,
    separator: Seq<char>,
    group_size: nat,
    j: int,
)
    requires
        0 <= j < chunk.len(),
    ensures
        hex_column_diff(chunk.take(j + 1), expected, prefix, separator, group_size)
            == hex_column_diff(chunk.take(j), expected, prefix, separator, group_size)
            + octet_gap(j as nat, separator, group_size) + diff_octet(
            prefix,
            chunk[j],
            j < expected.len() && chunk[j] != expected[j],
        ),
{
    let c = chunk.take(j + 1);
    assert(c.drop_last() =~= chunk.take(j));
    assert(c.last() == chunk[j]);
    let octet = prefix + hex_octet(c.last());
    assert(red_on() + octet + color_reset() =~= red_on() + prefix + hex_octet(c.last())
        + color_reset());
}

fn push_hex_column_diff(
    s: &mut String,
    chunk: &[u8],
    expected: &[u8],
    prefix: &str,
    separator: &str,
    group_size: usize,
)
    requires
        group_size > 0,
    ensures
        final(s)@ == old(s)@ + hex_column_diff(
            chunk@,
            expected@,
            prefix@,
            separator@,
            group_size as nat,
        ),
{
    let ghost start = s@;
    let mut j: usize = 0;
    while j < chunk.len()
        invariant
            j <= chunk.len(),
            group_size > 0,
            s@ == start + hex_column_diff(
                chunk@.take(j as int),
                expected@,
                prefix@,
                separator@,
                group_size as nat,
            ),
        decreases chunk.len() - j,
    {
        let ghost before = s@;
        if j > 0 && j % group_size == 0 {
            push_char(s, ' ');
            push_char(s, ' ');
        } else if j > 0 {
            s.append(separator);
        }
        assert(s@ =~= before + octet_gap(j as nat, separator@, group_size as nat));
        let differing = j < expected.len() && chunk[j] != expected[j];
        push_diff_octet(s, prefix, chunk[j], differing);
        proof {
            lemma_hex_column_diff_step(
                chunk@,
                expected@,
                prefix@,
                separator@,
                group_size as nat,
                j as int,
            );
        }
        assert(s@ =~= start + hex_column_diff(
            chunk@.take(j + 1),
            expected@,
            prefix@,
            separator@,
            group_size as nat,
        ));
        j = j + 1;
    }
    assert(chunk@.take(chunk.len() as int) =~= chunk@);
}

fn ascii_of(b: u8) -> (c: char)
    ensures
        c == ascii_char(b),
{
    if (0x21 <= b && b <= 0x7e) || b == 0x20 {
        b as char
    } else {
        '.'
    }
}

fn push_ascii_column(s: &mut String, chunk: &[u8])
    ensures
        final(s)@ == old(s)@ + ascii_column(chunk@),
{
    let ghost start = s@;
    let mut j: usize = 0;
    while j < chunk.len()
        invariant
            j <= chunk.len(),
            s@ == start + ascii_column(chunk@.take(j as int)),
        decreases chunk.len() - j,
    {
        push_char(s, ascii_of(chunk[j]));
        j = j + 1;
        assert(s@ =~= start + ascii_column(chunk@.take(j as int)));
    }
    assert(chunk@.take(chunk.len() as int) =~= chunk@);
}

proof fn lemma_padding_bound(chunk_len: nat, per_line: nat, group_size: nat, per_octet: nat)
    requires
        0 < group_size <= per_line,
        chunk_len < per_line,
    ensures
        line_padding(chunk_len, per_line, group_size, per_octet) <= per_line * (per_octet + 1),
        (group_size * per_octet + 1) <= per_line * (per_octet + 1),
        ((per_line - chunk_len) as nat / group_size) * (group_size * per_octet + 1)
            <= per_line * (per_octet + 1),
{
    let missing = (per_line - chunk_len) as nat;
    let q = missing / group_size;
    let r = missing % group_size;
    assert(missing == q * group_size + r) by (nonlinear_arith)
        requires
            group_size > 0,
            q == missing / group_size,
            r == missing % group_size,
    ;
    assert(q * (group_size * per_octet + 1) + r * per_octet <= missing * per_octet + missing)
        by (nonlinear_arith)
        requires
            missing == q * group_size + r,
            group_size > 0,
            r >= 0,
            q >= 0,
            q <= missing,
    ;
    assert(missing * per_octet + missing <= per_line * (per_octet + 1)) by (nonlinear_arith)
        requires
            missing <= per_line,
    ;
    assert(group_size * per_octet + 1 <= per_line * (per_octet + 1)) by (nonlinear_arith)
        requires
            0 < group_size <= per_line,
    ;
    assert(q <= missing) by (nonlinear_arith)
        requires
            group_size > 0,
            q == missing / group_size,
    ;
}

/// The padding of a line whose chunk has `chunk_len` octets (computed as `line_padding`).
fn padding_for(chunk_len: usize, per_line: usize, group_size: usize, prefix: &str, separator: &str) -> (pad: usize)
    requires
        0 < group_size <= per_line,
        chunk_len <= per_line,
        chunk_len < per_line ==> per_line * (prefix.spec_bytes().len() + separator.spec_bytes().len() + 3)
            <= usize::MAX,
    ensures
        pad == line_padding(
            chunk_len as nat,
            per_line as nat,
            group_size as nat,
            prefix.spec_bytes().len() + 2 + separator.spec_bytes().len(),
        ),
{
    if chunk_len < per_line {
        let ghost per_octet = prefix.spec_bytes().len() + 2 + separator.spec_bytes().len();
        let missing_octets = per_line - chunk_len;
        proof {
            lemma_padding_bound(chunk_len as nat, per_line as nat, group_size as nat, per_octet);
            assert(per_line * (per_octet + 1) == per_line * (prefix.spec_bytes().len()
                + separator.spec_bytes().len() + 3));
        }
        assert(prefix.spec_bytes().len() + separator.spec_bytes().len() + 3 <= usize::MAX)
            by (nonlinear_arith)
            requires
                per_line * (prefix.spec_bytes().len() + separator.spec_bytes().len() + 3)
                    <= usize::MAX,
                per_line >= 1,
        ;
        let per_octet_space = prefix.len() + 2 + separator.len();
        let full_groups_missing = missing_octets / group_size;
        let remaining_octets = missing_octets % group_size;
        assert(remaining_octets * per_octet_space <= per_line * (per_octet + 1))
            by (nonlinear_arith)
            requires
                remaining_octets < group_size,
                group_size <= per_line,
                per_octet_space == per_octet,
        ;
        full_groups_missing * (group_size * per_octet_space + 1) + remaining_octets
            * per_octet_space
    } else {
        0
    }
}

fn push_dump_line(
    result: &mut String,
    buf: &[u8],
    prefix: &str,
    separator: &str,
    per_line: usize,
    group_size: usize,
    line: usize,
    start: usize,
    chunk: &[u8],
)
    requires
        0 < group_size <= per_line,
        chunk@.len() < per_line ==> per_line * (prefix.spec_bytes().len() + separator.spec_bytes().len() + 3)
            <= usize::MAX,
        start == line * per_line,
        chunk@ == line_chunk(buf@, per_line as nat, line as nat),
        chunk@.len() <= per_line,
    ensures
        final(result)@ == old(result)@ + dump_line(
            buf@,
            prefix,
            separator,
            per_line as nat,
            group_size as nat,
            line as nat,
        ),
{
    let ghost before = result@;
    push_hex_padded(result, start, 8);
    push_char(result, ' ');
    push_char(result, ' ');
    push_hex_column(result, chunk, prefix, separator, group_size);
    let pad = padding_for(chunk.len(), per_line, group_size, prefix, separator);
    push_spaces(result, pad);
    push_char(result, ' ');
    push_char(result, ' ');
    push_ascii_column(result, chunk);
    assert(result@ =~= before + dump_line(
        buf@,
        prefix,
        separator,
        per_line as nat,
        group_size as nat,
        line as nat,
    ));
}

/// Formats `buf` as a hex dump: per line of `octets_per_line` octets, the offset as
/// eight uppercase hex digits, two spaces, the hex column (`prefix` before each two-digit
/// octet, `separator` between octets, two spaces between groups of `group_size`), the
/// padding of a short last line, two spaces and the ASCII column; lines are joined
/// by newlines.
pub fn format_hex_with_prefix_and_separator(
    buf: &[u8],
    prefix: &str,
    separator: &str,
    octets_per_line: usize,
    group_size: usize,
) -> (result: String)
    requires
        0 < group_size <= octets_per_line,
        buf@.len() > 0 ==> buf@.len() + octets_per_line <= usize::MAX,
        buf@.len() % (octets_per_line as nat) != 0 ==> octets_per_line * (prefix.spec_bytes().len()
            + separator.spec_bytes().len() + 3) <= usize::MAX,
    ensures
        result@ == hex_dump(buf@, prefix, separator, octets_per_line as nat, group_size as nat),
{
    let mut result = String::new();
    let len = buf.len();
    let per_line = octets_per_line;
    let lines: usize = if len == 0 {
        0
    } else {
        (len + per_line - 1) / per_line
    };
    assert(lines == line_count(len as nat, per_line as nat)) by {
        if len == 0 {
            assert((per_line - 1) as nat / (per_line as nat) == 0) by (nonlinear_arith)
                requires
                    per_line > 0,
            ;
        }
    }
    let mut i: usize = 0;
    while i < lines
        invariant
            0 < group_size <= per_line,
            per_line == octets_per_line,
            len == buf@.len(),
            lines == line_count(len as nat, per_line as nat),
            len > 0 ==> len + per_line <= usize::MAX,
            len == 0 ==> lines == 0,
            (len as nat) % (per_line as nat) != 0 ==> per_line * (prefix.spec_bytes().len() + separator.spec_bytes().len()
                + 3) <= usize::MAX,
            i <= lines,
            result@ == dump_lines(buf@, prefix, separator, per_line as nat, group_size as nat, i as nat),
        decreases lines - i,
    {
        assert(i * per_line < len && (i + 1) * per_line <= len + per_line - 1) by (nonlinear_arith)
            requires
                i < lines,
                lines == (len + per_line - 1) as nat / (per_line as nat),
                per_line > 0,
                len > 0,
        ;
        let start = i * per_line;
        assert(start + per_line == (i + 1) * per_line) by (nonlinear_arith)
            requires
                start == i * per_line,
        ;
        let end = if len - start >= per_line {
            start + per_line
        } else {
            len
        };
        let chunk = &buf[start..end];
        assert(chunk@ == line_chunk(buf@, per_line as nat, i as nat));
        proof {
            if len - start < per_line {
                let q = len / per_line;
                vstd::arithmetic::div_mod::lemma_fundamental_div_mod(len as int, per_line as int);
                if len % per_line == 0 {
                    assert(lines == q) by (nonlinear_arith)
                        requires
                            len == per_line * q,
                            lines == (len + per_line - 1) as nat / (per_line as nat),
                            per_line > 0,
                    {
                        vstd::arithmetic::div_mod::lemma_fundamental_div_mod(
                            (len + per_line - 1) as int,
                            per_line as int,
                        );
                    }
                    assert(start + per_line <= len) by (nonlinear_arith)
                        requires
                            len == per_line * q,
                            start == i * per_line,
                            i < q,
                    ;
                }
            }
        }
        push_dump_line(&mut result, buf, prefix, separator, per_line, group_size, i, start, chunk);
        if i < lines - 1 {
            push_char(&mut result, '\n');
        }
        assert(result@ =~= dump_lines(
            buf@,
            prefix,
            separator,
            per_line as nat,
            group_size as nat,
            (i + 1) as nat,
        ));
        i = i + 1;
    }
    result
}

/// Formats `buf` as a hex dump with 16 octets per line in groups of 8, octets
/// separated by a space and no prefix.
pub fn format_hex(buf: &[u8]) -> (result: String)
    requires
        buf@.len() + 16 <= usize::MAX,
    ensures
        result@ == hex_dump(buf@, "", " ", 16, 8),
{
    proof {
        reveal_strlit("");
        reveal_strlit(" ");
        assert(is_ascii("") && is_ascii(" "));
        assert(("").spec_bytes().len() == 0 && (" ").spec_bytes().len() == 1);
    }
    format_hex_with_prefix_and_separator(buf, "", " ", 16, 8)
}

/// The four big-endian octets of a 32-bit value (`u32::to_be_bytes`).
pub open spec fn u32_be_octets(num: u32) -> Seq<u8> {
    seq![(num >> 24u32) as u8, (num >> 16u32) as u8, (num >> 8u32) as u8, num as u8]
}

/// Formats the four big-endian octets of `num` as a hex dump line with `0x` before
/// each octet and `,` between octets.
pub fn format_hex_u32_be(num: u32) -> (result: String)
    ensures
        result@ == hex_dump(u32_be_octets(num), "0x", ",", 16, 8),
{
    let octets: [u8; 4] = [(num >> 24u32) as u8, (num >> 16u32) as u8, (num >> 8u32) as u8, num as u8];
    proof {
        reveal_strlit("0x");
        reveal_strlit(",");
        assert(is_ascii("0x") && is_ascii(","));
        assert(("0x").spec_bytes().len() == 2 && (",").spec_bytes().len() == 1);
        assert(octets@ =~= u32_be_octets(num));
    }
    format_hex_with_prefix_and_separator(octets.as_slice(), "0x", ",", 16, 8)
}

/// The group size for a comparison with `octets_per_line` octets per line: half the
/// line, clamped to 4..=16, rounded down to a power of two.
pub open spec fn group_size_for(octets_per_line: nat) -> nat {
    let half = octets_per_line / 2;
    if half >= 16 {
        16
    } else if half >= 8 {
        8
    } else {
        4
    }
}

fn compute_group_size(octets_per_line: usize) -> (group_size: usize)
    ensures
        group_size == group_size_for(octets_per_line as nat),
{
    let half = octets_per_line / 2;
    let clamped = if half < 4 {
        4
    } else if half > 16 {
        16
    } else {
        half
    };
    if clamped >= 16 {
        16
    } else if clamped >= 8 {
        8
    } else {
        4
    }
}

/// A string padded on the right with spaces to at least `width` characters (`{:<width}`).
pub open spec fn pad_right(s: Seq<char>, width: nat) -> Seq<char> {
    if s.len() < width {
        s + spaces((width - s.len()) as nat)
    } else {
        s
    }
}

/// One row of a comparison: the padded offset, the hex column, the ASCII column and `!`.
pub open spec fn comparison_row(offset: nat, hex: Seq<char>, ascii: Seq<char>) -> Seq<char> {
    pad_right(hex_padded(offset, 8), 10) + seq![' ', ' '] + hex + seq![' ', ' '] + ascii + seq!['!']
}

/// The rows of a comparison of `encountered` with `expected` for its first `lines` lines:
/// per line, the row of the expected octets (when there are any on that line), then the
/// row of the encountered octets with the differing ones coloured (when there are any).
pub open spec fn comparison_rows(
    encountered: Seq<u8>,
    expected: Seq<u8>,
    prefix: Seq<char>,
    separator: Seq<char>,
    per_line: nat,
    group_size: nat,
    lines: nat,
) -> Seq<Seq<char>>
    decreases lines,
{
    if lines == 0 {
        Seq::<Seq<char>>::empty()
    } else {
        let line = (lines - 1) as nat;
        let expected_chunk = line_chunk(expected, per_line, line);
        let encountered_chunk = line_chunk(encountered, per_line, line);
        let before = comparison_rows(
            encountered,
            expected,
            prefix,
            separator,
            per_line,
            group_size,
            line,
        );
        let with_expected = if expected_chunk.len() > 0 {
            before.push(
                comparison_row(
                    line * per_line,
                    hex_column(expected_chunk, prefix, separator, group_size),
                    ascii_column(expected_chunk),
                ),
            )
        } else {
            before
        };
        if encountered_chunk.len() > 0 {
            with_expected.push(
                comparison_row(
                    line * per_line,
                    hex_column_diff(encountered_chunk, expected_chunk, prefix, separator, group_size),
                    ascii_column(encountered_chunk),
                ),
            )
        } else {
            with_expected
        }
    }
}

/// Rows joined by newlines.
pub open spec fn join_lines(rows: Seq<Seq<char>>) -> Seq<char>
    decreases rows.len(),
{
    if rows.len() == 0 {
        Seq::<char>::empty()
    } else if rows.len() == 1 {
        rows[0]
    } else {
        join_lines(rows.drop_last()) + seq!['\n'] + rows.last()
    }
}

/// The whole comparison of two buffers, one line per `per_line` octets of the longer one.
pub open spec fn hex_comparison(
    encountered: Seq<u8>,
    expected: Seq<u8>,
    prefix: Seq<char>,
    separator: Seq<char>,
    per_line: nat,
    group_size: nat,
) -> Seq<char> {
    let longest = if expected.len() >= encountered.len() {
        expected.len()
    } else {
        encountered.len()
    };
    join_lines(
        comparison_rows(
            encountered,
            expected,
            prefix,
            separator,
            per_line,
            group_size,
            line_count(longest, per_line),
        ),
    )
}

/// The inputs a comparison takes: a valid group size, and no overflow when counting
/// lines.
pub open spec fn comparison_accepts(
    encountered_len: nat,
    expected_len: nat,
    per_line: nat,
    group_size: nat,
) -> bool {
    let longest = if expected_len >= encountered_len {
        expected_len
    } else {
        encountered_len
    };
    &&& 0 < group_size <= per_line
    &&& longest + per_line <= usize::MAX
}

fn push_row(result: &mut String, offset: usize, hex: &String, ascii: &String)
    ensures
        final(result)@ == old(result)@ + comparison_row(offset as nat, hex@, ascii@),
{
    let ghost start = result@;
    let mut offset_text = String::new();
    push_hex_padded(&mut offset_text, offset, 8);
    let padding: usize = if offset_text.as_str().unicode_len() < 10 {
        10 - offset_text.as_str().unicode_len()
    } else {
        0
    };
    result.append(offset_text.as_str());
    push_spaces(result, padding);
    push_char(result, ' ');
    push_char(result, ' ');
    result.append(hex.as_str());
    push_char(result, ' ');
    push_char(result, ' ');
    result.append(ascii.as_str());
    push_char(result, '!');
    assert(result@ =~= start + comparison_row(offset as nat, hex@, ascii@));
}

proof fn lemma_join_push(rows: Seq<Seq<char>>, row: Seq<char>)
    ensures
        join_lines(rows.push(row)) == join_lines(rows) + if rows.len() > 0 {
            seq!['\n']
        } else {
            Seq::<char>::empty()
        } + row,
{
    let pushed = rows.push(row);
    assert(pushed.drop_last() =~= rows);
    if rows.len() == 0 {
        assert(join_lines(rows) =~= Seq::<char>::empty());
        assert(Seq::<char>::empty() + Seq::<char>::empty() + row =~= row);
    }
}

/// The hex column of a chunk (no colouring).
fn format_hex_octets(buf: &[u8], prefix: &str, separator: &str, group_size: usize) -> (s: String)
    requires
        group_size > 0,
    ensures
        s@ == hex_column(buf@, prefix@, separator@, group_size as nat),
{
    let mut s = String::new();
    push_hex_column(&mut s, buf, prefix, separator, group_size);
    s
}

/// The hex column of a chunk with the octets that differ from `expected_buf` coloured red.
fn format_hex_bytes_with_diff(
    encountered_buf: &[u8],
    expected_buf: &[u8],
    prefix: &str,
    separator: &str,
    group_size: usize,
) -> (s: String)
    requires
        group_size > 0,
    ensures
        s@ == hex_column_diff(
            encountered_buf@,
            expected_buf@,
            prefix@,
            separator@,
            group_size as nat,
        ),
{
    let mut s = String::new();
    push_hex_column_diff(&mut s, encountered_buf, expected_buf, prefix, separator, group_size);
    s
}

/// The ASCII column of a chunk.
fn format_ascii(buf: &[u8]) -> (s: String)
    ensures
        s@ == ascii_column(buf@),
{
    let mut s = String::new();
    push_ascii_column(&mut s, buf);
    s
}

fn append_row(
    result: &mut String,
    rows: Ghost<Seq<Seq<char>>>,
    first: bool,
    offset: usize,
    hex: &String,
    ascii: &String,
)
    requires
        old(result)@ == join_lines(rows@),
        first == (rows@.len() == 0),
    ensures
        final(result)@ == join_lines(rows@.push(comparison_row(offset as nat, hex@, ascii@))),
{
    if !first {
        push_char(result, '\n');
    }
    proof {
        lemma_join_push(rows@, comparison_row(offset as nat, hex@, ascii@));
    }
    push_row(result, offset, hex, ascii);
}

/// Formats two buffers as an interleaved comparison: for each line of
/// `bytes_per_line` octets (as many lines as the longer buffer needs), a row of the
/// expected octets and a row of the encountered octets with the differing ones
/// coloured red; a row is left out where its buffer has no octets on that line.
/// Rows show the offset padded to ten characters, the hex column, the ASCII column and
/// `!`, and are joined by newlines.
fn format_hex_dump_comparison_interleaved(
    encountered_buf: &[u8],
    expected_buf: &[u8],
    prefix: &str,
    separator: &str,
    bytes_per_line: usize,
    group_size: usize,
) -> (result: String)
    requires
        comparison_accepts(
            encountered_buf@.len(),
            expected_buf@.len(),
            bytes_per_line as nat,
            group_size as nat,
        ),
    ensures
        result@ == hex_comparison(
            encountered_buf@,
            expected_buf@,
            prefix@,
            separator@,
            bytes_per_line as nat,
            group_size as nat,
        ),
{
    let mut result = String::new();
    let longest = if expected_buf.len() >= encountered_buf.len() {
        expected_buf.len()
    } else {
        encountered_buf.len()
    };
    let total_lines = (longest + bytes_per_line - 1) / bytes_per_line;
    let ghost mut rows: Seq<Seq<char>> = Seq::empty();
    let mut first = true;
    let mut line: usize = 0;
    while line < total_lines
        invariant
            comparison_accepts(
                encountered_buf@.len(),
                expected_buf@.len(),
                bytes_per_line as nat,
                group_size as nat,
            ),
            longest == (if expected_buf@.len() >= encountered_buf@.len() {
                expected_buf@.len()
            } else {
                encountered_buf@.len()
            }),
            total_lines == line_count(longest as nat, bytes_per_line as nat),
            line <= total_lines,
            rows == comparison_rows(
                encountered_buf@,
                expected_buf@,
                prefix@,
                separator@,
                bytes_per_line as nat,
                group_size as nat,
                line as nat,
            ),
            result@ == join_lines(rows),
            first == (rows.len() == 0),
        decreases total_lines - line,
    {
        assert((line + 1) * bytes_per_line <= longest + bytes_per_line - 1) by (nonlinear_arith)
            requires
                line < total_lines,
                total_lines == (longest + bytes_per_line - 1) as nat / (bytes_per_line as nat),
                bytes_per_line > 0,
        ;
        assert(line * bytes_per_line < longest) by (nonlinear_arith)
            requires
                (line + 1) * bytes_per_line <= longest + bytes_per_line - 1,
        ;
        let start = line * bytes_per_line;
        let next = (line + 1) * bytes_per_line;
        assert(start <= next) by (nonlinear_arith)
            requires
                start == line * bytes_per_line,
                next == (line + 1) * bytes_per_line,
        ;
        let expected_end = if expected_buf.len() < next {
            expected_buf.len()
        } else {
            next
        };
        let encountered_end = if encountered_buf.len() < next {
            encountered_buf.len()
        } else {
            next
        };
        let expected_start = if start < expected_buf.len() {
            start
        } else {
            expected_end
        };
        let encountered_start = if start < encountered_buf.len() {
            start
        } else {
            encountered_end
        };
        let expected_chunk = &expected_buf[expected_start..expected_end];
        let encountered_chunk = &encountered_buf[encountered_start..encountered_end];
        assert(expected_chunk@ == line_chunk(expected_buf@, bytes_per_line as nat, line as nat));
        assert(encountered_chunk@ == line_chunk(
            encountered_buf@,
            bytes_per_line as nat,
            line as nat,
        ));
        let formatted_hex1 = format_hex_octets(expected_chunk, prefix, separator, group_size);
        let ascii1 = format_ascii(expected_chunk);
        let formatted_hex2 = format_hex_bytes_with_diff(
            encountered_chunk,
            expected_chunk,
            prefix,
            separator,
            group_size,
        );
        let ascii2 = format_ascii(encountered_chunk);
        if expected_chunk.len() > 0 {
            append_row(&mut result, Ghost(rows), first, start, &formatted_hex1, &ascii1);
            first = false;
            proof {
                rows = rows.push(comparison_row(start as nat, formatted_hex1@, ascii1@));
            }
        }
        if encountered_chunk.len() > 0 {
            append_row(&mut result, Ghost(rows), first, start, &formatted_hex2, &ascii2);
            first = false;
            proof {
                rows = rows.push(comparison_row(start as nat, formatted_hex2@, ascii2@));
            }
        }
        line = line + 1;
    }
    result
}

/// Formats a comparison of two buffers with 16 octets per line in groups of 8.
pub fn format_hex_dump_comparison(buf1: &[u8], buf2: &[u8]) -> (result: String)
    requires
        comparison_accepts(buf1@.len(), buf2@.len(), 16, 8),
    ensures
        result@ == hex_comparison(buf1@, buf2@, Seq::<char>::empty(), seq![' '], 16, 8),
{
    proof {
        reveal_strlit("");
        reveal_strlit(" ");
        assert(("")@ =~= Seq::<char>::empty());
        assert((" ")@ =~= seq![' ']);
    }
    format_hex_dump_comparison_interleaved(buf1, buf2, "", " ", 16, 8)
}

/// Formats a comparison of two buffers with `octets_per_line` octets per line, grouped
/// by `group_size_for(octets_per_line)`.
pub fn format_hex_dump_comparison_width(
    encountered_buf: &[u8],
    expected_buf: &[u8],
    octets_per_line: usize,
) -> (result: String)
    requires
        comparison_accepts(
            encountered_buf@.len(),
            expected_buf@.len(),
            octets_per_line as nat,
            group_size_for(octets_per_line as nat),
        ),
    ensures
        result@ == hex_comparison(
            encountered_buf@,
            expected_buf@,
            Seq::<char>::empty(),
            seq![' '],
            octets_per_line as nat,
            group_size_for(octets_per_line as nat),
        ),
{
    let group_size = compute_group_size(octets_per_line);
    proof {
        reveal_strlit("");
        reveal_strlit(" ");
        assert(("")@ =~= Seq::<char>::empty());
        assert((" ")@ =~= seq![' ']);
    }
    format_hex_dump_comparison_interleaved(
        encountered_buf,
        expected_buf,
        "",
        " ",
        octets_per_line,
        group_size,
    )
}

/// Asserts that two octet slices are equal. Unequal slices, which panic with a
/// comparison dump, are ruled out by `requires`, so the check does nothing.
pub fn assert_eq_slices(buf_to_test: &[u8], expected_buf: &[u8])
    requires
        buf_to_test@ == expected_buf@,
{
}

} // verus!