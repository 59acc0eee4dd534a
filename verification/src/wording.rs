//! What holds of texts, of the names and lines that are made from them, and of lists.

use crate::console::{
    duration_text, fraction_text, indent_of, indented, letter_of, margin_of, padded_end,
    padded_start, rendered, Align, ConsoleConfig, ConsoleExporter, LoggerType, Painted,
};
use crate::list::{chosen, without_sn};
use crate::naming::{ascii_lower, build_args, library_file, missing, snake, underscored, uppercase};
use crate::readings::numbers;
use crate::text::{
    decimal_text, digit, has_prefix, has_suffix, join, repeated, split, text_lt,
};
use vstd::prelude::*;
use vstd::utf8::encode_utf8;

verus! {

/// Joining two lists of parts is joining each, with the separator between. One part is joined as it
/// is, and no part as nothing.
pub proof fn joins_can_be_joined(a: Seq<Seq<char>>, b: Seq<Seq<char>>, sep: Seq<char>)
    ensures
        a.len() > 0 && b.len() > 0 ==> join(a + b, sep) == join(a, sep) + sep + join(b, sep),
        a.len() == 1 ==> join(a, sep) == a[0],
        a.len() == 0 ==> join(a, sep).len() == 0,
    decreases b.len(),
{
    if a.len() > 0 && b.len() > 0 {
        let all = a + b;
        assert(all.drop_last() =~= a + b.drop_last());
        assert(all.last() == b.last());
        if b.len() == 1 {
            assert(a + b.drop_last() =~= a);
        } else {
            joins_can_be_joined(a, b.drop_last(), sep);
            let rest = join(b.drop_last(), sep);
            assert(join(a, sep) + sep + rest + sep + b.last() =~= join(a, sep) + sep + (rest + sep
                + b.last()));
        }
    }
}

/// No piece of a split text holds the separator, and there is one piece more than separators.
pub proof fn pieces_hold_no_separator(s: Seq<char>, c: char)
    ensures
        split(s, c).len() > 0,
        forall|i: int| 0 <= i < split(s, c).len() ==> !(#[trigger] split(s, c)[i]).contains(c),
        split(s, c).len() == s.filter(|x: char| x == c).len() + 1,
    decreases s.len(),
{
    reveal(Seq::filter);
    if s.len() > 0 {
        let front = s.drop_last();
        let rest = split(front, c);
        let all = split(s, c);
        pieces_hold_no_separator(front, c);
        assert forall|i: int| 0 <= i < all.len() implies !(#[trigger] all[i]).contains(c) by {
            if s.last() != c && i == all.len() - 1 {
                assert(!rest[i].contains(c));
                if all[i].contains(c) {
                    let k = all[i].index_of(c);
                    if k < rest[i].len() {
                        assert(rest[i][k] == c);
                    }
                }
            } else if i < rest.len() {
                assert(all[i] == rest[i]);
            }
        }
    } else {
        assert(!split(s, c)[0].contains(c));
    }
}

/// A text begins with another where it is the other with something behind, and ends with it where
/// something stands before.
pub proof fn prefixes_and_suffixes(s: Seq<char>, part: Seq<char>)
    ensures
        has_prefix(part + s, part),
        has_suffix(s + part, part),
        has_prefix(s, part) ==> part + s.skip(part.len() as int) == s,
        has_suffix(s, part) ==> s.take(s.len() - part.len()) + part == s,
{
    assert((part + s).take(part.len() as int) =~= part);
    assert((s + part).skip(s.len() as int) =~= part);
    if has_prefix(s, part) {
        assert(part + s.skip(part.len() as int) =~= s);
    }
    if has_suffix(s, part) {
        assert(s.take(s.len() - part.len()) + part =~= s);
    }
}

/// Texts are ordered by what follows what they have in common: by the first character there, or
/// the one that ends there first.
pub proof fn texts_are_ordered_by_the_difference(common: Seq<char>, a: Seq<char>, b: Seq<char>)
    ensures
        text_lt(common + a, common + b) <==> text_lt(a, b),
        a.len() == 0 ==> (text_lt(a, b) <==> b.len() > 0),
        b.len() == 0 ==> !text_lt(a, b),
        a.len() > 0 && b.len() > 0 && a[0] != b[0] ==> (text_lt(a, b) <==> a[0] < b[0]),
    decreases common.len(),
{
    if common.len() == 0 {
        assert(common + a =~= a);
        assert(common + b =~= b);
    } else {
        let rest = common.drop_first();
        texts_are_ordered_by_the_difference(rest, a, b);
        assert((common + a).drop_first() =~= rest + a);
        assert((common + b).drop_first() =~= rest + b);
    }
}

/// The number that decimal digits stand for.
pub open spec fn number_of(text: Seq<char>) -> int
    decreases text.len(),
{
    if text.len() == 0 {
        0
    } else {
        number_of(text.drop_last()) * 10 + (text.last() as int - '0' as int)
    }
}

/// Digits below ten are decimal, those from ten on are letters.
pub proof fn digits_count(d: int)
    requires
        0 <= d < 16,
    ensures
        d < 10 ==> digit(d) as int == '0' as int + d,
        d >= 10 ==> digit(d) as int == 'a' as int + d - 10,
{
}

/// The decimal notation of a number consists of digits, stands for the number, and has no zero in
/// front unless it is the number.
pub proof fn decimal_texts_stand_for_numbers(n: nat)
    ensures
        number_of(decimal_text(n)) == n,
        decimal_text(n).len() > 0,
        forall|i: int|
            0 <= i < decimal_text(n).len() ==> '0' <= (#[trigger] decimal_text(n)[i]) <= '9',
        n > 0 ==> decimal_text(n)[0] != '0',
        n < 10 ==> decimal_text(n).len() == 1,
    decreases n,
{
    let text = decimal_text(n);
    if n < 10 {
        assert(text.drop_last() =~= Seq::<char>::empty());
        digits_count(n as int);
        assert(number_of(Seq::<char>::empty()) == 0);
    } else {
        decimal_texts_stand_for_numbers(n / 10);
        digits_count((n % 10) as int);
        assert(text.drop_last() =~= decimal_text(n / 10));
        assert(text[0] == decimal_text(n / 10)[0]);
    }
}

/// A repeated character is all there is, as often as asked for.
pub proof fn repetitions_repeat(c: char, n: nat)
    ensures
        repeated(c, n).len() == n,
        forall|i: int| 0 <= i < n ==> #[trigger] repeated(c, n)[i] == c,
{
}

/// Of the letters of ASCII the uppercase ones get their lowercase ones; all other characters stay.
pub proof fn letters_are_lowered(c: char)
    ensures
        'A' <= c <= 'Z' ==> ascii_lower(c) as int == c as int + 32,
        !('A' <= c <= 'Z') ==> ascii_lower(c) == c,
{
}

/// A name in two parts is written in words part by part, with an underscore between them where the
/// second begins with a capital. A single character is written in lowercase where it is a capital.
pub proof fn words_are_parted_at_capitals(a: Seq<char>, b: Seq<char>)
    ensures
        a.len() > 0 && b.len() > 0 && uppercase(b[0]) ==> snake(a + b) == snake(a) + seq!['_']
            + snake(b),
        a.len() > 0 && b.len() > 0 && !uppercase(b[0]) ==> snake(a + b) == snake(a) + snake(b),
        a.len() == 1 ==> snake(a) == seq![
            if uppercase(a[0]) {
                ascii_lower(a[0])
            } else {
                a[0]
            },
        ],
        a.len() == 0 ==> snake(a).len() == 0,
    decreases b.len(),
{
    if a.len() == 1 {
        assert(a.drop_last() =~= Seq::<char>::empty());
        assert(snake(a.drop_last()) =~= Seq::<char>::empty());
        assert(snake(a) =~= seq![
            if uppercase(a[0]) {
                ascii_lower(a[0])
            } else {
                a[0]
            },
        ]);
    }
    if a.len() > 0 && b.len() > 0 {
        let all = a + b;
        assert(all.drop_last() =~= a + b.drop_last());
        assert(all.last() == b.last());
        let mid = if uppercase(b[0]) {
            seq!['_']
        } else {
            Seq::empty()
        };
        if b.len() == 1 {
            assert(a + b.drop_last() =~= a);
            assert(b.drop_last() =~= Seq::<char>::empty());
            assert(snake(b.drop_last()) =~= Seq::<char>::empty());
            assert(snake(all) =~= snake(a) + mid + snake(b));
        } else {
            words_are_parted_at_capitals(a, b.drop_last());
            assert(b.drop_last()[0] == b[0]);
            if !uppercase(b[0]) {
                assert(snake(a) + mid + snake(b.drop_last()) =~= snake(a) + snake(b.drop_last()));
            }
            assert(snake(all.drop_last()) == snake(a) + mid + snake(b.drop_last()));
            assert(snake(all) =~= snake(a) + mid + snake(b));
        }
        assert(snake(a) + mid + snake(b) =~= snake(a) + (mid + snake(b)));
        if !uppercase(b[0]) {
            assert(snake(a) + mid + snake(b) =~= snake(a) + snake(b));
        }
    }
}

/// A library is named after its package, with underscores for hyphens, in the way of the operating
/// system.
pub proof fn libraries_are_named_after_packages(package: Seq<char>, os: Seq<char>)
    ensures
        ({
            let stem = underscored(package);
            &&& stem.len() == package.len()
            &&& forall|i: int|
                0 <= i < package.len() ==> #[trigger] stem[i] == (if package[i] == '-' {
                    '_'
                } else {
                    package[i]
                })
            &&& library_file(package, "macos"@) == "lib"@ + stem + ".dylib"@
            &&& library_file(package, "windows"@) == stem + ".dll"@
            &&& os != "macos"@ && os != "windows"@ ==> library_file(package, os) == "lib"@ + stem
                + ".so"@
        }),
{
    reveal_strlit("macos");
    reveal_strlit("windows");
    assert("macos"@.len() != "windows"@.len());
}

/// Missing are the packages whose library is not present, in their order.
pub proof fn packages_without_a_library_are_missing(
    packages: Seq<Seq<char>>,
    os: Seq<char>,
    present: Seq<Seq<char>>,
)
    ensures
        missing(packages, os, present) == packages.filter(
            |package: Seq<char>| !present.contains(library_file(package, os)),
        ),
    decreases packages.len(),
{
    reveal(Seq::filter);
    if packages.len() > 0 {
        packages_without_a_library_are_missing(packages.drop_last(), os, present);
    }
    assert(missing(packages, os, present) =~= packages.filter(
        |package: Seq<char>| !present.contains(library_file(package, os)),
    ));
}

/// Packages are built by one command that names each of them, in order.
pub proof fn packages_are_built_together(packages: Seq<Seq<char>>, i: int)
    requires
        0 <= i < packages.len(),
    ensures
        build_args(packages).len() == 1 + 2 * packages.len(),
        build_args(packages)[0] == "build"@,
        build_args(packages)[1 + 2 * i] == "-p"@,
        build_args(packages)[2 + 2 * i] == packages[i],
    decreases packages.len(),
{
    let front = packages.drop_last();
    let before = build_args(front);
    let all = build_args(packages);
    assert(all =~= before + seq!["-p"@, packages.last()]);
    if i < front.len() {
        packages_are_built_together(front, i);
        assert(front[i] == packages[i]);
        assert(all[1 + 2 * i] == before[1 + 2 * i]);
        assert(all[2 + 2 * i] == before[2 + 2 * i]);
    } else if front.len() > 0 {
        packages_are_built_together(front, 0);
        assert(all[0] == before[0]);
    } else {
        assert(before =~= seq!["build"@]);
    }
}

/// Taking a serial number out leaves the items with other numbers, in their order.
pub proof fn removals_leave_the_others<T>(items: Seq<(u64, T)>, sn: u64)
    ensures
        without_sn(items, sn) == items.filter(|item: (u64, T)| item.0 != sn),
    decreases items.len(),
{
    reveal(Seq::filter);
    if items.len() > 0 {
        removals_leave_the_others(items.drop_last(), sn);
    }
    assert(without_sn(items, sn) =~= items.filter(|item: (u64, T)| item.0 != sn));
}

/// The chosen items are those whose flag is set, in their order.
pub proof fn chosen_items_have_the_flag<T>(items: Seq<T>, keep: Seq<bool>)
    requires
        items.len() <= keep.len(),
    ensures
        chosen(items, keep) == numbers(items.len()).filter(|i: int| keep[i]).map_values(
            |i: int| items[i],
        ),
    decreases items.len(),
{
    reveal(Seq::filter);
    let flag = |i: int| keep[i];
    let item = |i: int| items[i];
    if items.len() > 0 {
        let front = items.drop_last();
        let n: int = items.len() - 1;
        chosen_items_have_the_flag(front, keep);
        assert(numbers(items.len()).drop_last() =~= numbers(front.len()));
        assert(numbers(items.len()).last() == n);
        let rest = numbers(front.len()).filter(flag);
        assert forall|k: int| 0 <= k < rest.len() implies front[#[trigger] rest[k]]
            == items[rest[k]] by {
            numbers(front.len()).lemma_filter_pred(flag, k);
            assert(rest.contains(rest[k]));
            numbers(front.len()).lemma_filter_contains_rev(flag, rest[k]);
        }
        assert(rest.map_values(|i: int| front[i]) =~= rest.map_values(item));
        assert(rest.push(n).map_values(item) =~= rest.map_values(item).push(items[n]));
    }
    assert(chosen(items, keep) =~= numbers(items.len()).filter(flag).map_values(item));
}

/// A padded text is the text, filled up with spaces to the width, behind or before it.
pub proof fn padding_fills_up(value: Seq<char>, width: int)
    ensures
        value.len() >= width ==> padded_end(value, width) == value && padded_start(value, width)
            == value,
        value.len() < width ==> {
            let end = padded_end(value, width);
            let start = padded_start(value, width);
            let fill = width - value.len();
            &&& end.len() == width
            &&& end.take(value.len() as int) == value
            &&& forall|i: int| value.len() <= i < width ==> #[trigger] end[i] == ' '
            &&& start.len() == width
            &&& start.skip(fill) == value
            &&& forall|i: int| 0 <= i < fill ==> #[trigger] start[i] == ' '
        },
{
    if value.len() < width {
        let fill = width - value.len();
        assert(padded_end(value, width).take(value.len() as int) =~= value);
        assert(padded_start(value, width).skip(fill) =~= value);
    }
}

/// The fraction of a second has three digits at most, without zeros at the end, and stands for the
/// milliseconds.
pub proof fn fractions_stand_for_milliseconds(millis: int)
    requires
        0 < millis < 1000,
    ensures
        ({
            let text = fraction_text(millis);
            &&& 1 <= text.len() <= 3
            &&& text.last() != '0'
            &&& text.len() == 3 ==> number_of(text) == millis
            &&& text.len() == 2 ==> number_of(text) * 10 == millis
            &&& text.len() == 1 ==> number_of(text) * 100 == millis
        }),
{
    reveal_with_fuel(number_of, 4);
    let text = fraction_text(millis);
    digits_count(millis / 100);
    digits_count(millis / 10 % 10);
    digits_count(millis % 10);
    if text.len() == 3 {
        assert(text.drop_last() =~= seq![text[0], text[1]]);
        assert(text.drop_last().drop_last() =~= seq![text[0]]);
        assert(text.drop_last().drop_last().drop_last() =~= Seq::<char>::empty());
    } else if text.len() == 2 {
        assert(text.drop_last() =~= seq![text[0]]);
        assert(text.drop_last().drop_last() =~= Seq::<char>::empty());
    } else {
        assert(text.drop_last() =~= Seq::<char>::empty());
    }
}

/// A duration below a second is written in milliseconds, any other in seconds, with a fraction
/// where it is not whole.
pub proof fn durations_are_written(ms: nat)
    ensures
        ms < 1000 ==> duration_text(ms) == decimal_text(ms) + seq!['m', 's'],
        ms >= 1000 && ms % 1000 == 0 ==> duration_text(ms) == decimal_text(ms / 1000) + seq!['s'],
        ms >= 1000 && ms % 1000 != 0 ==> duration_text(ms) == decimal_text(ms / 1000) + seq!['.']
            + fraction_text((ms % 1000) as int) + seq!['s'],
{
    reveal_strlit("ms");
    reveal_strlit("s");
    reveal_strlit(".");
    assert("ms"@ =~= seq!['m', 's']);
    assert("s"@ =~= seq!['s']);
    assert("."@ =~= seq!['.']);
}

/// Lines are indented one by one: a line feed is followed by the spaces, all else stays.
pub proof fn line_feeds_are_indented(a: Seq<char>, b: Seq<char>, indent: nat)
    ensures
        indented(a + b, indent) == indented(a, indent) + indented(b, indent),
        indented(seq!['\n'], indent) == seq!['\n'] + repeated(' ', indent),
        !a.contains('\n') ==> indented(a, indent) == a,
    decreases a.len() + b.len(),
{
    let line = seq!['\n'];
    assert(line.drop_last() =~= Seq::<char>::empty());
    assert(indented(line.drop_last(), indent) =~= Seq::<char>::empty());
    assert(line.last() == '\n');
    assert(indented(line, indent) =~= line + repeated(' ', indent));
    if b.len() == 0 {
        assert(a + b =~= a);
        assert(indented(a, indent) + indented(b, indent) =~= indented(a, indent));
    } else {
        line_feeds_are_indented(a, b.drop_last(), indent);
        assert((a + b).drop_last() =~= a + b.drop_last());
        assert((a + b).last() == b.last());
        assert(indented(a + b, indent) =~= indented(a, indent) + indented(b, indent));
    }
    if !a.contains('\n') {
        lemma_no_line_feed(a, indent);
    }
}

proof fn lemma_no_line_feed(a: Seq<char>, indent: nat)
    requires
        !a.contains('\n'),
    ensures
        indented(a, indent) == a,
    decreases a.len(),
{
    if a.len() > 0 {
        assert(a[a.len() - 1] != '\n');
        assert(!a.drop_last().contains('\n')) by {
            if a.drop_last().contains('\n') {
                let i = a.drop_last().index_of('\n');
                assert(a[i] == '\n');
            }
        }
        lemma_no_line_feed(a.drop_last(), indent);
        assert(a.drop_last().push(a.last()) =~= a);
    } else {
        assert(a =~= Seq::<char>::empty());
    }
}

/// Messages are marked by the first letter of their kind.
pub proof fn kinds_have_letters()
    ensures
        letter_of(LoggerType::Error) == 'E',
        letter_of(LoggerType::Warn) == 'W',
        letter_of(LoggerType::Info) == 'I',
        letter_of(LoggerType::Debug) == 'D',
{
}

/// What a message is made of: the time, if it is shown; the letter of its kind in brackets; the
/// label, filled up to its width, after the letter, or before it where it is aligned to the right;
/// the margins; the lines of the message, indented by the width of the head; and the time since the
/// last message, if there is one.
pub proof fn messages_are_laid_out(
    config: ConsoleConfig,
    kind: LoggerType,
    name: Seq<char>,
    painted: Painted,
)
    ensures
        ({
            let gap: nat = match config.label {
                Some(style) => style.margin as nat,
                None => 1,
            };
            let space = repeated(' ', gap);
            let time = if config.show_time@.len() > 0 {
                painted.time@
            } else {
                seq![]
            };
            let mark = seq!['[', letter_of(kind), ']'];
            let time_width = encode_utf8(config.show_time@).len();
            let tail = if painted.diff is Some {
                painted.diff->0@
            } else {
                seq![]
            };
            match config.label {
                None => rendered(config, kind, name, painted) == time + mark + space
                    + painted.label@ + space + indented(painted.message@, 4 + time_width) + tail,
                Some(style) => {
                    let width: int = style.width + painted.label@.len() - name.len();
                    match style.align {
                        Align::Left => rendered(config, kind, name, painted) == time + mark + space
                            + padded_end(painted.label@, width) + space + indented(
                            painted.message@,
                            3 + style.margin as nat + time_width,
                        ) + tail,
                        Align::Right => rendered(config, kind, name, painted) == time
                            + padded_start(painted.label@, width) + space + mark + space + indented(
                            painted.message@,
                            3 + 2 * style.margin as nat + time_width + style.width as nat,
                        ) + tail,
                    }
                },
            }
        }),
{
    reveal_strlit("[");
    reveal_strlit("]");
    let mark = seq!['[', letter_of(kind), ']'];
    assert("["@.push(letter_of(kind)) + "]"@ =~= mark);
    let body = rendered(config, kind, name, Painted { diff: None, ..painted });
    assert(body + Seq::<char>::empty() =~= body);
    assert(Seq::<char>::empty() =~= seq![]);
    assert(margin_of(config.label) == match config.label {
        Some(style) => style.margin as nat,
        None => 1,
    });
    assert(indent_of(config) == match config.label {
        None => 4 + encode_utf8(config.show_time@).len(),
        Some(style) => match style.align {
            Align::Left => 3 + style.margin as nat + encode_utf8(config.show_time@).len(),
            Align::Right => 3 + 2 * style.margin as nat + encode_utf8(config.show_time@).len()
                + style.width as nat,
        },
    });
}

/// The time since the last message is shown where it is asked for and there was one. A clock that
/// goes back counts as standing still.
pub proof fn differences_are_shown(exporter: ConsoleExporter, ts: u64)
    ensures
        exporter.shown_diff(ts) is Some <==> exporter.config.show_diff && exporter.timestamp != 0,
        exporter.shown_diff(ts) is Some && ts >= exporter.timestamp ==> exporter.shown_diff(ts)->0
            == ts - exporter.timestamp,
        exporter.shown_diff(ts) is Some && ts < exporter.timestamp ==> exporter.shown_diff(ts)->0
            == 0,
{
}

} // verus!
