//! What is shown of the busy processes.

use crate::battery::BatteryState;
use crate::double;
use crate::double::Double;
use crate::frontmost::ForegroundApp;
use crate::pids;
use crate::process;
use crate::process::{CpuSnapshot, ProcessMetrics};
use crate::text;
use std::collections::HashSet;
use vstd::prelude::*;

verus! {

broadcast use vstd::std_specs::hash::group_hash_axioms;

/// How many busy processes are reported.
pub const TOP_N: usize = 20;

/// The line that borders the table.
pub const SEP: &'static str = "──────────────────────────────────────────────────────────";

/// How many bytes of a name are shown.
pub const NAME_BYTES: usize = 24;

/// The width to which shorter names are filled up.
pub const NAME_WIDTH: usize = 23;

/// A name without as many characters at its end as make its UTF-8 encoding longer
/// than the space for names.
pub open spec fn shortened(name: Seq<char>) -> Seq<char>
    decreases name.len(),
{
    if name.len() == 0 || vstd::utf8::encode_utf8(name).len() <= NAME_BYTES {
        name
    } else {
        shortened(name.drop_last())
    }
}

/// The encoding of two texts in a row is that of the first, then that of the second.
proof fn lemma_encode_concat(a: Seq<char>, b: Seq<char>)
    ensures
        vstd::utf8::encode_utf8(a + b) == vstd::utf8::encode_utf8(a) + vstd::utf8::encode_utf8(b),
    decreases a.len(),
{
    if a.len() == 0 {
        assert(a + b =~= b);
        assert(vstd::utf8::encode_utf8(a) + vstd::utf8::encode_utf8(b) =~= vstd::utf8::encode_utf8(
            b,
        ));
    } else {
        lemma_encode_concat(a.drop_first(), b);
        assert((a + b).drop_first() =~= a.drop_first() + b);
        assert(vstd::utf8::encode_utf8(a + b) =~= vstd::utf8::encode_utf8(a)
            + vstd::utf8::encode_utf8(b));
    }
}

/// The number of bytes in the UTF-8 encoding of a character.
fn encoded_width(c: char) -> (w: usize)
    ensures
        w == vstd::utf8::encode_scalar(c as u32).len(),
        1 <= w <= 4,
{
    let v: u32 = c as u32;
    proof {
        vstd::utf8::char_is_scalar(c);
    }
    if v <= 0x7f {
        1
    } else if v <= 0x7ff {
        2
    } else if v <= 0xffff {
        3
    } else {
        4
    }
}

/// Where one more character does not fit, no longer prefix does.
proof fn lemma_shortened(name: Seq<char>, i: int, j: int)
    requires
        0 <= i < j <= name.len(),
        vstd::utf8::encode_utf8(name.take(i)).len() <= NAME_BYTES,
        vstd::utf8::encode_utf8(name.take(i + 1)).len() > NAME_BYTES,
    ensures
        shortened(name.take(j)) == name.take(i),
    decreases j,
{
    let t = name.take(j);
    assert(t =~= name.take(i + 1) + name.subrange(i + 1, j));
    lemma_encode_concat(name.take(i + 1), name.subrange(i + 1, j));
    assert(t.drop_last() =~= name.take(j - 1));
    if j > i + 1 {
        lemma_shortened(name, i, j - 1);
    } else {
        assert(shortened(name.take(i)) == name.take(i));
    }
}

/// A name without as many characters at its end as make it too long.
pub fn shorten(name: &str) -> (shown: String)
    ensures
        shown@ == shortened(name@),
        vstd::utf8::encode_utf8(name@).len() <= NAME_BYTES ==> shown@ == name@,
{
    let chars = text::chars_of(name);
    let mut shown = String::new();
    let mut used: usize = 0;
    let mut i: usize = 0;
    while i < chars.len()
        invariant
            chars@ == name@,
            i <= name@.len(),
            shown@ == name@.take(i as int),
            used == vstd::utf8::encode_utf8(shown@).len(),
            used <= NAME_BYTES,
        decreases name@.len() - i,
    {
        let c: char = chars[i];
        let w: usize = encoded_width(c);
        proof {
            let one = seq![c];
            assert(name@.take(i + 1) =~= shown@ + one);
            lemma_encode_concat(shown@, one);
            assert(one.drop_first() =~= Seq::<char>::empty());
            assert(vstd::utf8::encode_utf8(one.drop_first()) =~= Seq::<u8>::empty());
            assert(vstd::utf8::encode_utf8(one) =~= vstd::utf8::encode_scalar(c as u32));
            assert(name@.take(name@.len() as int) =~= name@);
        }
        if used + w > NAME_BYTES {
            proof {
                lemma_shortened(name@, i as int, name@.len() as int);
            }
            return shown;
        }
        shown.push(c);
        used += w;
        i += 1;
        assert(shown@ =~= name@.take(i as int));
    }
    assert(name@.take(name@.len() as int) =~= name@);
    shown
}

/// A shown name fits into the space for names and is how the full name starts; it
/// differs from the full name only where that does not fit, and then one more
/// character would be too many.
pub proof fn law_shortened_is_longest_fit(name: Seq<char>)
    ensures
        shortened(name).is_prefix_of(name),
        vstd::utf8::encode_utf8(shortened(name)).len() <= NAME_BYTES,
        shortened(name) == name || vstd::utf8::encode_utf8(
            name.take(shortened(name).len() as int + 1),
        ).len() > NAME_BYTES,
    decreases name.len(),
{
    if name.len() == 0 {
        assert(vstd::utf8::encode_utf8(name) =~= Seq::<u8>::empty());
    } else if vstd::utf8::encode_utf8(name).len() > NAME_BYTES {
        let rest = name.drop_last();
        law_shortened_is_longest_fit(rest);
        let shown = shortened(rest);
        if shown == rest {
            assert(name.take(rest.len() as int + 1) =~= name);
        } else {
            assert(rest.take(shown.len() as int + 1) =~= name.take(shown.len() as int + 1)) by {
                if shown.len() == rest.len() {
                    assert(shown =~= rest);
                }
            }
        }
    }
}

/// What the user is told of how a busy process is treated.
pub open spec fn tag_of(m: ProcessMetrics) -> Seq<char> {
    if m.is_forced_e {
        "FORCE_E"@
    } else if m.is_forced_p {
        "FORCE_P"@
    } else if m.is_throttled {
        "THROTTLED"@
    } else {
        "OK"@
    }
}

/// What parts the columns of a row.
pub const BAR: &'static str = " | ";

/// The column with rank and name.
pub open spec fn name_column(rank: nat, name: Seq<char>) -> Seq<char> {
    text::pad_left(text::decimal(rank), 2) + ". "@ + text::pad_right(
        shortened(name),
        NAME_WIDTH as nat,
    )
}

/// The column with the CPU share.
pub open spec fn cpu_column(share: Double) -> Seq<char> {
    "CPU: "@ + text::pad_left(share.one_decimal(), 5) + "%"@
}

/// The column with the memory.
pub open spec fn ram_column(bytes: nat) -> Seq<char> {
    "RAM: "@ + text::pad_left(process::ram_text(bytes), 6)
}

/// The column with the number of threads.
pub open spec fn threads_column(threads: int) -> Seq<char> {
    "Threads: "@ + text::pad_left(text::signed_decimal(threads), 2)
}

/// The columns of one row: rank and name, CPU share, memory, threads and tag.
pub open spec fn row_columns(rank: nat, m: ProcessMetrics, tag: Seq<char>) -> Seq<Seq<char>> {
    seq![
        name_column(rank, m.name@),
        cpu_column(m.cpu_pct),
        ram_column(m.resident_bytes as nat),
        threads_column(m.threadnum as int),
        tag,
    ]
}

/// One row of the table.
pub open spec fn row_text(rank: nat, m: ProcessMetrics, tag: Seq<char>) -> Seq<char> {
    "│ "@ + text::joined(row_columns(rank, m, tag), BAR@) + "\n"@
}

/// Whether a text holds neither a bar nor the end of a line.
pub open spec fn is_cell(s: Seq<char>) -> bool {
    forall|i: int| 0 <= i < s.len() ==> #[trigger] s[i] != '|' && s[i] != '\n'
}

/// Two texts without a bar make one without a bar.
proof fn lemma_cells(a: Seq<char>, b: Seq<char>)
    requires
        is_cell(a),
        is_cell(b),
    ensures
        is_cell(a + b),
{
    assert forall|i: int| 0 <= i < (a + b).len() implies #[trigger] (a + b)[i] != '|' && (a + b)[i]
        != '\n' by {
        if i < a.len() {
            assert((a + b)[i] == a[i]);
        } else {
            assert((a + b)[i] == b[i - a.len()]);
        }
    }
}

/// Padding adds no bar.
proof fn lemma_padded_cell(s: Seq<char>, width: nat)
    requires
        is_cell(s),
    ensures
        is_cell(text::pad_left(s, width)),
        is_cell(text::pad_right(s, width)),
{
    if s.len() < width {
        let gap = text::spaces((width - s.len()) as nat);
        assert(is_cell(gap));
        lemma_cells(gap, s);
        lemma_cells(s, gap);
    }
}

/// A number holds no bar.
proof fn lemma_decimal_cell(n: nat)
    ensures
        is_cell(text::decimal(n)),
    decreases n,
{
    let d = text::digit_char((n % 10) as int);
    assert(d != '|' && d != '\n');
    assert(is_cell(seq![d]));
    if n >= 10 {
        lemma_decimal_cell(n / 10);
        lemma_cells(text::decimal(n / 10), seq![d]);
        assert(text::decimal(n / 10).push(d) =~= text::decimal(n / 10) + seq![d]);
    }
}

/// A number with one digit after the point holds no bar.
proof fn lemma_tenths_cell(t: nat)
    ensures
        is_cell(double::tenths_text(t)),
{
    let ending = seq!['.', text::digit_char((t % 10) as int)];
    assert(is_cell(ending));
    lemma_decimal_cell(t / 10);
    lemma_cells(text::decimal(t / 10), ending);
}

/// Rank and name hold no bar, unless the full name does.
proof fn lemma_name_cell(rank: nat, name: Seq<char>)
    requires
        is_cell(name),
    ensures
        is_cell(name_column(rank, name)),
{
    let number = text::pad_left(text::decimal(rank), 2);
    let shown = shortened(name);
    reveal_strlit(". ");
    assert(is_cell(". "@));
    lemma_decimal_cell(rank);
    lemma_padded_cell(text::decimal(rank), 2);
    law_shortened_is_longest_fit(name);
    assert forall|i: int| 0 <= i < shown.len() implies #[trigger] shown[i] != '|' && shown[i]
        != '\n' by {
        assert(shown[i] == name[i]);
    }
    lemma_padded_cell(shown, NAME_WIDTH as nat);
    lemma_cells(number, ". "@);
    lemma_cells(number + ". "@, text::pad_right(shown, NAME_WIDTH as nat));
}

/// A CPU share holds no bar.
proof fn lemma_cpu_cell(share: Double)
    ensures
        is_cell(cpu_column(share)),
{
    let shown = share.one_decimal();
    reveal_strlit("CPU: ");
    reveal_strlit("%");
    assert(is_cell("CPU: "@) && is_cell("%"@));
    assert(is_cell(shown)) by {
        reveal_strlit("NaN");
        reveal_strlit("inf");
        assert(is_cell("NaN"@) && is_cell("inf"@) && is_cell(seq!['-']));
        let sign = if share.negative() {
            seq!['-']
        } else {
            Seq::empty()
        };
        let t = double::tenths(share.absolute());
        lemma_cells(sign, "inf"@);
        lemma_tenths_cell(t);
        lemma_cells(sign, double::tenths_text(t));
    }
    lemma_padded_cell(shown, 5);
    lemma_cells("CPU: "@, text::pad_left(shown, 5));
    lemma_cells("CPU: "@ + text::pad_left(shown, 5), "%"@);
}

/// An amount of memory holds no bar.
proof fn lemma_ram_cell(bytes: nat)
    ensures
        is_cell(ram_column(bytes)),
{
    let shown = process::ram_text(bytes);
    let t = double::tenths(process::gigabytes(bytes));
    reveal_strlit("RAM: ");
    reveal_strlit(" MB");
    reveal_strlit(" GB");
    assert(is_cell("RAM: "@) && is_cell(" MB"@) && is_cell(" GB"@));
    lemma_decimal_cell(bytes / (process::MB as nat));
    lemma_cells(text::decimal(bytes / (process::MB as nat)), " MB"@);
    lemma_tenths_cell(t);
    lemma_cells(double::tenths_text(t), " GB"@);
    lemma_padded_cell(shown, 6);
    lemma_cells("RAM: "@, text::pad_left(shown, 6));
}

/// A number of threads holds no bar.
proof fn lemma_threads_cell(threads: int)
    ensures
        is_cell(threads_column(threads)),
{
    let shown = text::signed_decimal(threads);
    reveal_strlit("Threads: ");
    assert(is_cell("Threads: "@) && is_cell(seq!['-']));
    if threads < 0 {
        lemma_decimal_cell((-threads) as nat);
        lemma_cells(seq!['-'], text::decimal((-threads) as nat));
    } else {
        lemma_decimal_cell(threads as nat);
    }
    lemma_padded_cell(shown, 2);
    lemma_cells("Threads: "@, text::pad_left(shown, 2));
}

/// Every row is made of five columns with ` | ` between them, and none of them holds a
/// bar or the end of a line, unless the name or the tag does.
pub proof fn law_row_has_five_columns(rank: nat, m: ProcessMetrics, tag: Seq<char>)
    requires
        is_cell(m.name@),
        is_cell(tag),
    ensures
        row_text(rank, m, tag) == "│ "@ + text::joined(row_columns(rank, m, tag), " | "@) + "\n"@,
        row_columns(rank, m, tag).len() == 5,
        forall|i: int| 0 <= i < 5 ==> is_cell(#[trigger] row_columns(rank, m, tag)[i]),
{
    let columns = row_columns(rank, m, tag);
    lemma_name_cell(rank, m.name@);
    lemma_cpu_cell(m.cpu_pct);
    lemma_ram_cell(m.resident_bytes as nat);
    lemma_threads_cell(m.threadnum as int);
    assert(columns[0] == name_column(rank, m.name@));
    assert(columns[1] == cpu_column(m.cpu_pct));
    assert(columns[2] == ram_column(m.resident_bytes as nat));
    assert(columns[3] == threads_column(m.threadnum as int));
    assert(columns[4] == tag);
}

/// Five texts in a row with a separator between neighbours.
proof fn lemma_five_joined(
    a: Seq<char>,
    b: Seq<char>,
    c: Seq<char>,
    d: Seq<char>,
    e: Seq<char>,
    bar: Seq<char>,
)
    ensures
        text::joined(seq![a, b, c, d, e], bar) == a + bar + b + bar + c + bar + d + bar + e,
{
    let one = seq![a];
    let two = seq![a, b];
    let three = seq![a, b, c];
    let four = seq![a, b, c, d];
    let five = seq![a, b, c, d, e];
    assert(two.drop_last() =~= one);
    assert(three.drop_last() =~= two);
    assert(four.drop_last() =~= three);
    assert(five.drop_last() =~= four);
    assert(text::joined(one, bar) == a);
    assert(text::joined(two, bar) == a + bar + b);
    assert(text::joined(three, bar) == a + bar + b + bar + c);
    assert(text::joined(four, bar) == a + bar + b + bar + c + bar + d);
}

/// The rows of the background processes, ranked from one on.
pub open spec fn hog_rows(hogs: Seq<ProcessMetrics>) -> Seq<char>
    decreases hogs.len(),
{
    if hogs.len() == 0 {
        Seq::empty()
    } else {
        hog_rows(hogs.drop_last()) + row_text(hogs.len(), hogs.last(), tag_of(hogs.last()))
    }
}

/// What is shown of the battery, if there is one.
pub open spec fn battery_text(battery: Option<BatteryState>) -> Seq<char> {
    match battery {
        None => Seq::empty(),
        Some(b) => if b.is_charging {
            " | 🔌 "@ + text::decimal(b.charge_percent as nat) + "% (Charging)"@
        } else {
            " | 🔋 "@ + text::decimal(b.charge_percent as nat) + "% (Battery)"@
        },
    }
}

/// A border of the table that starts with `corner`.
pub open spec fn border(corner: Seq<char>) -> Seq<char> {
    corner + SEP@ + "\n"@
}

/// Whether the first row is that of the foreground application.
pub open spec fn leads_with_frontmost(rows: Seq<ProcessMetrics>) -> bool {
    rows.len() > 0 && rows[0].is_frontmost
}

/// The row of the foreground application, where the rows start with one.
pub open spec fn frontmost_part(rows: Seq<ProcessMetrics>) -> Seq<char> {
    if leads_with_frontmost(rows) {
        row_text(0, rows[0], "FRONTMOST"@) + border("├"@)
    } else {
        Seq::empty()
    }
}

/// The rows of the background processes.
pub open spec fn background(rows: Seq<ProcessMetrics>) -> Seq<ProcessMetrics> {
    if leads_with_frontmost(rows) {
        rows.drop_first()
    } else {
        rows
    }
}

/// What is shown of the background processes.
pub open spec fn background_part(rows: Seq<ProcessMetrics>) -> Seq<char> {
    if background(rows).len() == 0 {
        "│   (none above threshold)\n"@
    } else {
        hog_rows(background(rows))
    }
}

/// The whole table.
pub open spec fn table_text(
    fg: ForegroundApp,
    rows: Seq<ProcessMetrics>,
    battery: Option<BatteryState>,
) -> Seq<char> {
    border("┌"@) + "│ 🟢 ACTIVE: "@ + fg.name@ + " (PID: "@ + text::signed_decimal(
        fg.pid as int,
    ) + ")"@ + battery_text(battery) + "\n"@ + border("├"@) + frontmost_part(rows)
        + "│ ⚠️  BACKGROUND HOGS\n"@ + background_part(rows) + border("└"@) + "\n"@
}

/// Where there are background processes, the table holds their rows.
pub proof fn lemma_table_holds_rows(
    fg: ForegroundApp,
    rows: Seq<ProcessMetrics>,
    battery: Option<BatteryState>,
)
    requires
        background(rows).len() > 0,
    ensures
        text::holds(table_text(fg, rows, battery), hog_rows(background(rows))),
{
    let head = border("┌"@) + "│ 🟢 ACTIVE: "@ + fg.name@ + " (PID: "@ + text::signed_decimal(
        fg.pid as int,
    ) + ")"@ + battery_text(battery) + "\n"@ + border("├"@) + frontmost_part(rows)
        + "│ ⚠️  BACKGROUND HOGS\n"@;
    let part = hog_rows(background(rows));
    let tail = border("└"@) + "\n"@;
    assert(head + part + border("└"@) + "\n"@ =~= text::between(head, part, tail));
}

/// Where the rows start with that of the foreground application, the table holds it.
pub proof fn lemma_table_holds_frontmost(
    fg: ForegroundApp,
    rows: Seq<ProcessMetrics>,
    battery: Option<BatteryState>,
)
    requires
        leads_with_frontmost(rows),
    ensures
        text::holds(table_text(fg, rows, battery), row_text(0, rows[0], "FRONTMOST"@)),
{
    let head = border("┌"@) + "│ 🟢 ACTIVE: "@ + fg.name@ + " (PID: "@ + text::signed_decimal(
        fg.pid as int,
    ) + ")"@ + battery_text(battery) + "\n"@ + border("├"@);
    let part = row_text(0, rows[0], "FRONTMOST"@);
    let rest = "│ ⚠️  BACKGROUND HOGS\n"@;
    let tail = border("├"@) + rest + background_part(rows) + border("└"@) + "\n"@;
    assert(head + (part + border("├"@)) + rest + background_part(rows) + border("└"@) + "\n"@
        =~= text::between(head, part, tail));
}

/// What the user is told of how a busy process is treated.
fn tag(m: &ProcessMetrics) -> (s: &'static str)
    ensures
        s@ == tag_of(*m),
{
    if m.is_forced_e {
        "FORCE_E"
    } else if m.is_forced_p {
        "FORCE_P"
    } else if m.is_throttled {
        "THROTTLED"
    } else {
        "OK"
    }
}

/// A text behind an empty one.
proof fn lemma_empty_start(s: Seq<char>)
    ensures
        Seq::<char>::empty() + s == s,
{
    assert(Seq::<char>::empty() + s =~= s);
}

/// The column with rank and name.
fn name_cell(rank: u64, name: &str) -> (s: String)
    ensures
        s@ == name_column(rank as nat, name@),
{
    let mut s = String::new();
    text::append_padded_left(&mut s, text::decimal_text(rank).as_str(), 2);
    proof {
        lemma_empty_start(text::pad_left(text::decimal(rank as nat), 2));
    }
    s.append(". ");
    text::append_padded_right(&mut s, shorten(name).as_str(), NAME_WIDTH);
    s
}

/// The column with the CPU share.
fn cpu_cell(share: Double) -> (s: String)
    ensures
        s@ == cpu_column(share),
{
    let mut s = "CPU: ".to_owned();
    text::append_padded_left(&mut s, share.to_one_decimal().as_str(), 5);
    s.append("%");
    s
}

/// The column with the memory.
fn ram_cell(bytes: u64) -> (s: String)
    ensures
        s@ == ram_column(bytes as nat),
{
    let mut s = "RAM: ".to_owned();
    text::append_padded_left(&mut s, process::format_ram(bytes).as_str(), 6);
    s
}

/// The column with the number of threads.
fn threads_cell(threads: i32) -> (s: String)
    ensures
        s@ == threads_column(threads as int),
{
    let mut s = "Threads: ".to_owned();
    text::append_padded_left(&mut s, text::signed_text(threads).as_str(), 2);
    s
}

/// One row of the table.
fn row(rank: u64, m: &ProcessMetrics, tag: &str) -> (s: String)
    ensures
        s@ == row_text(rank as nat, *m, tag@),
{
    let mut columns = name_cell(rank, m.name.as_str());
    columns.append(BAR);
    columns.append(cpu_cell(m.cpu_pct).as_str());
    columns.append(BAR);
    columns.append(ram_cell(m.resident_bytes).as_str());
    columns.append(BAR);
    columns.append(threads_cell(m.threadnum).as_str());
    columns.append(BAR);
    columns.append(tag);
    proof {
        lemma_five_joined(
            name_column(rank as nat, m.name@),
            cpu_column(m.cpu_pct),
            ram_column(m.resident_bytes as nat),
            threads_column(m.threadnum as int),
            tag@,
            BAR@,
        );
    }
    let mut s = "│ ".to_owned();
    s.append(columns.as_str());
    s.append("\n");
    s
}

/// A border of the table that starts with `corner`.
fn border_line(corner: &str) -> (s: String)
    ensures
        s@ == border(corner@),
{
    let mut s = corner.to_owned();
    s.append(SEP);
    s.append("\n");
    s
}

/// What is shown of the battery, if there is one.
fn battery_note(battery: &Option<BatteryState>) -> (s: String)
    ensures
        s@ == battery_text(*battery),
{
    match battery {
        None => String::new(),
        Some(b) => {
            let mut s = if b.is_charging {
                " | 🔌 ".to_owned()
            } else {
                " | 🔋 ".to_owned()
            };
            text::append_decimal(&mut s, b.charge_percent as u64);
            if b.is_charging {
                s.append("% (Charging)");
            } else {
                s.append("% (Battery)");
            }
            s
        },
    }
}

/// The row of the foreground application, where the rows start with one.
fn frontmost_lines(rows: &[ProcessMetrics]) -> (s: String)
    ensures
        s@ == frontmost_part(rows@),
{
    if rows.len() > 0 && rows[0].is_frontmost {
        let mut s = row(0, &rows[0], "FRONTMOST");
        s.append(border_line("├").as_str());
        s
    } else {
        String::new()
    }
}

/// What is shown of the background processes.
fn background_lines(rows: &[ProcessMetrics]) -> (s: String)
    ensures
        s@ == background_part(rows@),
{
    let first: usize = if rows.len() > 0 && rows[0].is_frontmost {
        1
    } else {
        0
    };
    let ghost hogs = background(rows@);
    assert(rows@.skip(first as int) =~= hogs);
    if first == rows.len() {
        return "│   (none above threshold)\n".to_owned();
    }
    let mut s = String::new();
    let mut i: usize = first;
    assert(hogs.take(0) =~= Seq::<ProcessMetrics>::empty());
    while i < rows.len()
        invariant
            first <= i <= rows@.len(),
            first <= 1,
            rows@.skip(first as int) == hogs,
            s@ == hog_rows(hogs.take(i - first)),
        decreases rows@.len() - i,
    {
        proof {
            let longer = hogs.take(i + 1 - first);
            assert(longer.drop_last() =~= hogs.take(i - first));
            assert(longer.last() == rows@[i as int]);
        }
        s.append(row((i + 1 - first) as u64, &rows[i], tag(&rows[i])).as_str());
        i += 1;
    }
    assert(hogs.take(i - first) =~= hogs);
    s
}

/// Builds the table that is printed and sent to the user interface. A first row that
/// belongs to the foreground application has rank zero; the background processes
/// follow from rank one on.
pub fn build_table(
    fg: &ForegroundApp,
    rows: &[ProcessMetrics],
    battery: &Option<BatteryState>,
) -> (out: String)
    ensures
        out@ == table_text(*fg, rows@, *battery),
{
    let mut out = border_line("┌");
    out.append("│ 🟢 ACTIVE: ");
    out.append(fg.name.as_str());
    out.append(" (PID: ");
    out.append(text::signed_text(fg.pid).as_str());
    out.append(")");
    out.append(battery_note(battery).as_str());
    out.append("\n");
    out.append(border_line("├").as_str());
    out.append(frontmost_lines(rows).as_str());
    out.append("│ ⚠️  BACKGROUND HOGS\n");
    out.append(background_lines(rows).as_str());
    out.append(border_line("└").as_str());
    out.append("\n");
    out
}

/// The name of a process in a snapshot, or its id where the process is gone.
pub open spec fn name_or_pid(snap: Map<i32, (String, u64, u64, i32, u32)>, pid: i32) -> Seq<char> {
    if snap.contains_key(pid) {
        snap[pid].0@
    } else {
        text::signed_decimal(pid as int)
    }
}

/// The names of some processes with commas between them.
pub open spec fn name_list(
    listed: Seq<i32>,
    snap: Map<i32, (String, u64, u64, i32, u32)>,
) -> Seq<char> {
    text::joined(listed.map_values(|pid: i32| name_or_pid(snap, pid)), ","@)
}

/// The names of a set of processes with commas between them, in any order. A process
/// that the snapshot does not hold is listed by its id.
pub fn build_override_list(pids: &HashSet<i32>, snap: &CpuSnapshot) -> (names: String)
    ensures
        exists|listed: Seq<i32>|
            pids::lists(listed, pids@) && names@ == #[trigger] name_list(listed, snap@),
{
    let listed = pids::members_of(pids);
    let ghost parts = listed@.map_values(|pid: i32| name_or_pid(snap@, pid));
    let mut names = String::new();
    let mut i: usize = 0;
    assert(parts.take(0) =~= Seq::<Seq<char>>::empty());
    while i < listed.len()
        invariant
            i <= listed@.len(),
            parts == listed@.map_values(|pid: i32| name_or_pid(snap@, pid)),
            names@ == text::joined(parts.take(i as int), ","@),
        decreases listed@.len() - i,
    {
        let pid: i32 = listed[i];
        let ghost before = names@;
        if i > 0 {
            names.append(",");
        }
        match snap.get(&pid) {
            Some(entry) => {
                names.append(entry.0.as_str());
            },
            None => {
                names.append(text::signed_text(pid).as_str());
            },
        }
        proof {
            assert(parts[i as int] == name_or_pid(snap@, pid));
            assert(parts.take(i + 1).drop_last() =~= parts.take(i as int));
            assert(parts.take(i + 1).last() == parts[i as int]);
            assert(names@ =~= text::joined(parts.take(i + 1), ","@));
        }
        i += 1;
    }
    assert(parts.take(i as int) =~= parts);
    assert(names@ == name_list(listed@, snap@));
    names
}

/// What is printed when the governor starts.
pub open spec fn banner_text() -> Seq<char> {
    "═══════════════════════════════════════════════════════════\n"@
        + "  Allocate  ·  Hardware-Aware Workload Governor  ·  v0.1  \n"@
        + "  CPU window: 500 ms  |  Top N: "@ + text::decimal(TOP_N as nat)
        + "  |  Event-driven + XPC  \n"@
        + "═══════════════════════════════════════════════════════════\n"@
        + "[INIT] Watchdog armed. Waiting for foreground change…\n\n"@
}

/// What is printed when the governor starts.
pub fn banner() -> (s: String)
    ensures
        s@ == banner_text(),
{
    let mut s = "═══════════════════════════════════════════════════════════\n".to_owned();
    s.append("  Allocate  ·  Hardware-Aware Workload Governor  ·  v0.1  \n");
    s.append("  CPU window: 500 ms  |  Top N: ");
    text::append_decimal(&mut s, TOP_N as u64);
    s.append("  |  Event-driven + XPC  \n");
    s.append("═══════════════════════════════════════════════════════════\n");
    s.append("[INIT] Watchdog armed. Waiting for foreground change…\n\n");
    s
}

/// The line that borders the table is 58 strokes long.
pub proof fn law_border_is_a_line()
    ensures
        SEP@.len() == 58,
        forall|i: int| 0 <= i < 58 ==> #[trigger] SEP@[i] == '─',
{
    reveal_strlit("──────────────────────────────────────────────────────────");
}

/// What is listed of forced processes: nothing of none, and of one more a comma where
/// there is another before it, and its name in the snapshot or, where the snapshot does
/// not hold it, its id.
pub proof fn law_forced_processes_are_listed(
    listed: Seq<i32>,
    snap: Map<i32, (String, u64, u64, i32, u32)>,
    pid: i32,
)
    ensures
        name_list(Seq::<i32>::empty(), snap) == Seq::<char>::empty(),
        ({
            let shown = if snap.contains_key(pid) {
                snap[pid].0@
            } else {
                text::signed_decimal(pid as int)
            };
            name_list(listed.push(pid), snap) == if listed.len() == 0 {
                shown
            } else {
                name_list(listed, snap) + ","@ + shown
            }
        }),
{
    let shown = |p: i32| name_or_pid(snap, p);
    assert(Seq::<i32>::empty().map_values(shown) =~= Seq::<Seq<char>>::empty());
    assert(listed.push(pid).map_values(shown) =~= listed.map_values(shown).push(
        name_or_pid(snap, pid),
    ));
    if listed.len() == 0 {
        assert(listed.map_values(shown).push(name_or_pid(snap, pid)) =~= seq![
            name_or_pid(snap, pid),
        ]);
    }
    text::law_joined_grows(listed.map_values(shown), ","@, name_or_pid(snap, pid));
}

/// The tag of a process goes by what is noted of it: the user's choices first, that for
/// the efficiency cores before the other, then whether it is throttled.
pub proof fn law_tags_tell_treatment(m: ProcessMetrics)
    ensures
        tag_of(m) == "FORCE_E"@ <==> m.is_forced_e,
        tag_of(m) == "FORCE_P"@ <==> !m.is_forced_e && m.is_forced_p,
        tag_of(m) == "THROTTLED"@ <==> !m.is_forced_e && !m.is_forced_p && m.is_throttled,
        tag_of(m) == "OK"@ <==> !m.is_forced_e && !m.is_forced_p && !m.is_throttled,
{
    reveal_strlit("FORCE_E");
    reveal_strlit("FORCE_P");
    reveal_strlit("THROTTLED");
    reveal_strlit("OK");
    assert("FORCE_E"@[6] != "FORCE_P"@[6]);
    assert("FORCE_E"@.len() == 7 && "FORCE_P"@.len() == 7 && "THROTTLED"@.len() == 9 && "OK"@.len()
        == 2);
}

/// A table without rows shows the foreground application, the battery if there is one,
/// and that no process is above the threshold.
pub proof fn law_table_without_rows(fg: ForegroundApp, battery: Option<BatteryState>)
    ensures
        table_text(fg, Seq::empty(), battery) == "┌"@ + SEP@ + "\n"@ + "│ 🟢 ACTIVE: "@ + fg.name@
            + " (PID: "@ + text::signed_decimal(fg.pid as int) + ")"@ + (match battery {
            None => Seq::<char>::empty(),
            Some(b) => if b.is_charging {
                " | 🔌 "@ + text::decimal(b.charge_percent as nat) + "% (Charging)"@
            } else {
                " | 🔋 "@ + text::decimal(b.charge_percent as nat) + "% (Battery)"@
            },
        }) + "\n"@ + "├"@ + SEP@ + "\n"@ + "│ ⚠️  BACKGROUND HOGS\n"@
            + "│   (none above threshold)\n"@ + "└"@ + SEP@ + "\n"@ + "\n"@,
{
    let rows = Seq::<ProcessMetrics>::empty();
    let head = "┌"@ + SEP@ + "\n"@ + "│ 🟢 ACTIVE: "@ + fg.name@ + " (PID: "@
        + text::signed_decimal(fg.pid as int) + ")"@ + battery_text(battery) + "\n"@;
    let title = "│ ⚠️  BACKGROUND HOGS\n"@;
    let none = "│   (none above threshold)\n"@;
    assert(frontmost_part(rows) =~= Seq::<char>::empty());
    assert(background_part(rows) == none);
    lemma_append_border(head, "├"@);
    assert(head + border("├"@) + frontmost_part(rows) =~= head + border("├"@));
    lemma_append_border(head + border("├"@) + title + none, "└"@);
}

/// A border behind a text is its three parts behind the text.
proof fn lemma_append_border(s: Seq<char>, corner: Seq<char>)
    ensures
        s + border(corner) == s + corner + SEP@ + "\n"@,
{
    assert(s + border(corner) =~= s + corner + SEP@ + "\n"@);
}

/// The part of the table before the background processes.
proof fn lemma_table_parts(fg: ForegroundApp, rows: Seq<ProcessMetrics>, battery: Option<BatteryState>)
    ensures
        table_text(fg, rows, battery) == table_head(fg, battery) + frontmost_part(rows)
            + "│ ⚠️  BACKGROUND HOGS\n"@ + background_part(rows) + border("└"@) + "\n"@,
{
}

/// What the table starts with: the foreground application and the battery.
pub open spec fn table_head(fg: ForegroundApp, battery: Option<BatteryState>) -> Seq<char> {
    border("┌"@) + "│ 🟢 ACTIVE: "@ + fg.name@ + " (PID: "@ + text::signed_decimal(fg.pid as int)
        + ")"@ + battery_text(battery) + "\n"@ + border("├"@)
}

/// A first row that belongs to the foreground application is shown with rank zero above
/// the background processes, which stay as they are without it.
pub proof fn law_frontmost_row_comes_first(
    fg: ForegroundApp,
    m: ProcessMetrics,
    rows: Seq<ProcessMetrics>,
    battery: Option<BatteryState>,
)
    requires
        m.is_frontmost,
        rows.len() > 0 ==> !rows[0].is_frontmost,
    ensures
        ({
            let head = table_head(fg, battery);
            let without = table_text(fg, rows, battery);
            &&& without == head + without.skip(head.len() as int)
            &&& table_text(fg, seq![m] + rows, battery) == head + row_text(0, m, "FRONTMOST"@)
                + border("├"@) + without.skip(head.len() as int)
        }),
{
    let head = table_head(fg, battery);
    let all = seq![m] + rows;
    let title = "│ ⚠️  BACKGROUND HOGS\n"@;
    let end = border("└"@) + "\n"@;
    let rest = title + background_part(rows) + border("└"@) + "\n"@;
    lemma_table_parts(fg, rows, battery);
    lemma_table_parts(fg, all, battery);
    assert(all[0] == m);
    assert(all.drop_first() =~= rows);
    assert(frontmost_part(rows) =~= Seq::<char>::empty());
    assert(background_part(all) == background_part(rows));
    lemma_three_behind(head, title, background_part(rows), border("└"@), "\n"@);
    assert(table_text(fg, rows, battery) =~= head + rest);
    assert((head + rest).skip(head.len() as int) =~= rest);
    let front = row_text(0, m, "FRONTMOST"@);
    assert(head + (front + border("├"@)) =~= head + front + border("├"@));
    lemma_three_behind(head + front + border("├"@), title, background_part(rows), border("└"@), "\n"@);
}

/// Four texts behind another one.
proof fn lemma_three_behind(s: Seq<char>, a: Seq<char>, b: Seq<char>, c: Seq<char>, d: Seq<char>)
    ensures
        s + a + b + c + d == s + (a + b + c + d),
{
    assert(s + a + b + c + d =~= s + (a + b + c + d));
}

/// One more background process adds its row, with the next rank and its tag, below those
/// of the others, or in place of the note that there are none; the rest of the table
/// stays as it is.
pub proof fn law_one_more_row(
    fg: ForegroundApp,
    rows: Seq<ProcessMetrics>,
    m: ProcessMetrics,
    battery: Option<BatteryState>,
)
    requires
        rows.len() == 0 ==> !m.is_frontmost,
    ensures
        ({
            let others = if rows.len() > 0 && rows[0].is_frontmost {
                rows.len() - 1
            } else {
                rows.len() as int
            };
            let tag = if m.is_forced_e {
                "FORCE_E"@
            } else if m.is_forced_p {
                "FORCE_P"@
            } else if m.is_throttled {
                "THROTTLED"@
            } else {
                "OK"@
            };
            let line = row_text((others + 1) as nat, m, tag);
            let end = "└"@ + SEP@ + "\n"@ + "\n"@;
            let note = "│   (none above threshold)\n"@;
            let before = table_text(fg, rows, battery);
            let after = table_text(fg, rows.push(m), battery);
            let kept = before.take(before.len() - end.len() - if others == 0 {
                note.len() as int
            } else {
                0
            });
            &&& before == if others == 0 {
                kept + note + end
            } else {
                kept + end
            }
            &&& after == kept + line + end
        }),
{
    let more = rows.push(m);
    let hogs = background(rows);
    let note = "│   (none above threshold)\n"@;
    let end = "└"@ + SEP@ + "\n"@ + "\n"@;
    let start = table_head(fg, battery) + frontmost_part(rows) + "│ ⚠️  BACKGROUND HOGS\n"@;
    let line = row_text(hogs.len() + 1, m, tag_of(m));
    lemma_end_of_table(fg, rows, battery);
    lemma_end_of_table(fg, more, battery);
    lemma_background_grows(rows, m);
    if hogs.len() == 0 {
        lemma_cut_end(start, note + end);
        lemma_regroup(start, note, end);
    } else {
        lemma_cut_end(start + hog_rows(hogs), end);
        lemma_regroup(start, hog_rows(hogs), line);
    }
}

/// One more row is one more background process.
proof fn lemma_background_grows(rows: Seq<ProcessMetrics>, m: ProcessMetrics)
    requires
        rows.len() == 0 ==> !m.is_frontmost,
    ensures
        background(rows).len() == (if rows.len() > 0 && rows[0].is_frontmost {
            rows.len() - 1
        } else {
            rows.len() as int
        }),
        frontmost_part(rows.push(m)) == frontmost_part(rows),
        background_part(rows.push(m)) == (if background(rows).len() == 0 {
            row_text(1, m, tag_of(m))
        } else {
            hog_rows(background(rows)) + row_text(background(rows).len() + 1, m, tag_of(m))
        }),
{
    let more = rows.push(m);
    let hogs = background(rows);
    if rows.len() > 0 {
        assert(more[0] == rows[0]);
        assert(more.drop_first() =~= rows.drop_first().push(m));
    } else {
        assert(more[0] == m);
    }
    assert(background(more) =~= hogs.push(m));
    assert(background(more).drop_last() =~= hogs);
    if hogs.len() == 0 {
        assert(hog_rows(hogs) + row_text(1, m, tag_of(m)) =~= row_text(1, m, tag_of(m)));
    }
}

/// What is left of a text without its end.
proof fn lemma_cut_end(kept: Seq<char>, end: Seq<char>)
    ensures
        (kept + end).take((kept + end).len() - end.len()) == kept,
{
    assert((kept + end).take((kept + end).len() - end.len()) =~= kept);
}

/// Three texts in a row, taken together in either way.
proof fn lemma_regroup(a: Seq<char>, b: Seq<char>, c: Seq<char>)
    ensures
        a + (b + c) == a + b + c,
{
    assert(a + (b + c) =~= a + b + c);
}

/// What stands behind the background processes.
proof fn lemma_end_of_table(fg: ForegroundApp, rows: Seq<ProcessMetrics>, battery: Option<BatteryState>)
    ensures
        table_text(fg, rows, battery) == table_head(fg, battery) + frontmost_part(rows)
            + "│ ⚠️  BACKGROUND HOGS\n"@ + background_part(rows) + ("└"@ + SEP@ + "\n"@ + "\n"@),
{
    let start = table_head(fg, battery) + frontmost_part(rows) + "│ ⚠️  BACKGROUND HOGS\n"@
        + background_part(rows);
    lemma_table_parts(fg, rows, battery);
    lemma_regroup(start, border("└"@), "\n"@);
}

} // verus!
