//! What holds of the scanner and of the filter for every text.

use vstd::prelude::*;
use vstd::string::*;
use vstd::utf8::*;
use crate::latex_like::{
    annotation, argument_end, arguments, arity_of, bar_from, close_brace, closes_at,
    command_at_start, command_name_end, escaped_before, exactly, lemma_argument_end,
    lemma_arguments_stop, lemma_command_at_start, lemma_first_close, lemma_letters_end,
    lemma_next_command, letters_end, next_command, ruby_arities, ruby_name, segments, split_bar,
    split_chars, split_from, CommandView, Segment,
};
use crate::text::{
    lemma_boundary_after_ascii, lemma_boundary_after_scalar, suffix, BACKSLASH, BAR, CLOSE_BRACE,
    OPEN_BRACE,
};
use crate::RubyView;

verus! {

broadcast use {
    vstd::utf8::encode_utf8_valid_utf8,
    vstd::utf8::is_char_boundary_start_end_of_seq,
    vstd::utf8::valid_utf8_split,
};

/// The bytes that the segments `parts` take up, one after another.
pub open spec fn sources(parts: Seq<Segment>) -> Seq<u8>
    decreases parts.len(),
{
    if parts.len() == 0 {
        Seq::empty()
    } else {
        parts[0].source() + sources(parts.drop_first())
    }
}

/// The bytes of a segment followed by others are its own, then theirs.
pub proof fn lemma_sources_first(first: Segment, rest: Seq<Segment>)
    ensures
        sources(seq![first] + rest) == first.source() + sources(rest),
{
    assert((seq![first] + rest).drop_first() =~= rest);
}

/// The segments of a text, put one after another, are the text: nothing is
/// lost, doubled or moved.
pub proof fn theorem_round_trip(b: Seq<u8>)
    requires
        valid_utf8(b),
    ensures
        sources(segments(b)) == b,
    decreases b.len(),
{
    if b.len() == 0 {
        assert(sources(segments(b)) =~= b);
    } else {
        lemma_next_command(b, ruby_arities(), 0);
        match next_command(b, ruby_arities(), 0) {
            None => {
                let plain = Segment::Plain(b);
                lemma_sources_first(plain, Seq::empty());
                assert(seq![plain] + Seq::<Segment>::empty() =~= segments(b));
                assert(b + sources(Seq::<Segment>::empty()) =~= b);
            },
            Some((start, end, command)) => {
                let rest = suffix(b, end);
                theorem_round_trip(rest);
                let found = Segment::Annotation {
                    source: b.subrange(start, end),
                    outcome: annotation(command.args[0], command.args[1]),
                };
                lemma_sources_first(found, segments(rest));
                if start > 0 {
                    let plain = Segment::Plain(b.subrange(0, start));
                    lemma_sources_first(plain, seq![found] + segments(rest));
                    assert(seq![plain] + (seq![found] + segments(rest)) =~= segments(b));
                    assert(b.subrange(0, start) + (b.subrange(start, end) + rest) =~= b);
                } else {
                    assert(b.subrange(start, end) + rest =~= b);
                }
            },
        }
    }
}

/// The command that the scanner finds from `index` on is the first: no
/// command stands at an offset between `index` and its start. Where it finds
/// none, no command stands at any offset from `index` on.
pub proof fn theorem_first_command(b: Seq<u8>, arities: Map<Seq<u8>, usize>, index: int)
    requires
        valid_utf8(b),
        0 <= index <= b.len(),
        is_char_boundary(b, index),
    ensures
        match next_command(b, arities, index) {
            Some((start, end, command)) => index <= start < end <= b.len() && command_at_start(
                suffix(b, start),
                arities,
            ) == Ok::<(int, CommandView), int>((end - start, command)) && forall|j: int|
                index <= j < start ==> (#[trigger] command_at_start(suffix(b, j), arities)) is Err,
            None => forall|j: int|
                index <= j <= b.len() ==> (#[trigger] command_at_start(suffix(b, j), arities)) is Err,
        },
    decreases b.len() - index,
{
    let rest = suffix(b, index);
    lemma_next_command(b, arities, index);
    lemma_command_at_start(rest, arities);
    match command_at_start(rest, arities) {
        Ok((end, command)) => {},
        Err(retry) => {
            if index < b.len() {
                if command_name_end(rest) is None {
                    lemma_boundary_after_scalar(b, index);
                } else {
                    lemma_boundary_after_ascii(b, index);
                }
                theorem_first_command(b, arities, index + retry);
                assert forall|j: int| index < j < index + retry implies (
                #[trigger] command_at_start(suffix(b, j), arities)) is Err by {
                    lemma_inside_character(b, index, j);
                    assert(suffix(b, j)[0] == b[j]);
                }
            }
        },
    }
}

/// Whether no `ruby` command stands at the start of `t`: `t` starts with no
/// command name, or with another name than `ruby`, or the name is not
/// followed by exactly two arguments.
pub open spec fn rejected(t: Seq<u8>) -> bool {
    match command_name_end(t) {
        None => true,
        Some(name_end) => t.subrange(1, name_end) != ruby_name() || exactly(t, name_end, 2)
            is None,
    }
}

/// A text in which no `ruby` command stands at any offset, be it for an
/// unknown name, for missing or unclosed arguments or for one argument too
/// many, is one plain run, unchanged.
pub proof fn theorem_plain_text(b: Seq<u8>)
    requires
        valid_utf8(b),
        b.len() > 0,
        forall|j: int| 0 <= j < b.len() ==> rejected(#[trigger] suffix(b, j)),
    ensures
        segments(b) == seq![Segment::Plain(b)],
{
    theorem_first_command(b, ruby_arities(), 0);
    match next_command(b, ruby_arities(), 0) {
        Some((start, end, command)) => {
            assert(rejected(suffix(b, start)));
        },
        None => {},
    }
}

/// A text without a backslash is one plain run.
pub proof fn theorem_no_backslash(b: Seq<u8>)
    requires
        valid_utf8(b),
        b.len() > 0,
        forall|i: int| 0 <= i < b.len() ==> b[i] != BACKSLASH,
    ensures
        segments(b) == seq![Segment::Plain(b)],
{
    assert forall|j: int| 0 <= j < b.len() implies rejected(#[trigger] suffix(b, j)) by {
        assert(suffix(b, j)[0] == b[j]);
    }
    theorem_plain_text(b);
}

/// A text without a closing brace is one plain run: an argument that is not
/// closed ends no command.
pub proof fn theorem_no_closing_brace(b: Seq<u8>)
    requires
        valid_utf8(b),
        b.len() > 0,
        forall|i: int| 0 <= i < b.len() ==> b[i] != CLOSE_BRACE,
    ensures
        segments(b) == seq![Segment::Plain(b)],
{
    assert forall|j: int| 0 <= j < b.len() implies rejected(#[trigger] suffix(b, j)) by {
        let t = suffix(b, j);
        match command_name_end(t) {
            Some(name_end) => {
                lemma_letters_end(t, 2);
                reveal_with_fuel(arguments, 2);
                lemma_argument_end(t, name_end);
                match argument_end(t, name_end) {
                    Some(e) => {
                        assert(t[e] == b[j + e]);
                    },
                    None => {
                        lemma_arguments_stop(t, name_end, 0, 2);
                    },
                }
            },
            None => {},
        }
    }
    theorem_plain_text(b);
}

/// Whether `x` can stand between the braces of an argument: its closing
/// brace is then the first that is not escaped.
pub open spec fn is_argument(x: Seq<u8>) -> bool {
    close_brace(seq![OPEN_BRACE] + x + seq![CLOSE_BRACE]) == Some((x.len() + 1) as int)
}

/// The text of a `ruby` command with the arguments `base` and `ruby`.
pub open spec fn ruby_command(base: Seq<u8>, ruby: Seq<u8>) -> Seq<u8> {
    seq![BACKSLASH] + ruby_name() + seq![OPEN_BRACE] + base + seq![CLOSE_BRACE, OPEN_BRACE] + ruby
        + seq![CLOSE_BRACE]
}

/// Whether a byte is escaped depends on the bytes before it only.
pub proof fn lemma_escaped_prefix(x: Seq<u8>, y: Seq<u8>, i: int)
    requires
        0 <= i <= x.len(),
    ensures
        escaped_before(x + y, i) == escaped_before(x, i),
    decreases i,
{
    if i > 0 {
        lemma_escaped_prefix(x, y, i - 1);
    }
}

/// The first unescaped closing brace of a text is that of every text that
/// starts with it.
pub proof fn lemma_close_brace_prefix(x: Seq<u8>, y: Seq<u8>)
    requires
        close_brace(x) is Some,
    ensures
        close_brace(x + y) == close_brace(x),
{
    let i = close_brace(x).unwrap();
    lemma_first_close(x, 0);
    lemma_first_close(x + y, 0);
    lemma_escaped_prefix(x, y, i);
    assert(closes_at(x + y, i));
    let k = close_brace(x + y).unwrap();
    if k < i {
        lemma_escaped_prefix(x, y, k);
        assert(closes_at(x, k));
    }
}

/// The text of a `ruby` command is valid UTF-8 where its arguments are.
pub proof fn lemma_ruby_command_valid(base: Seq<u8>, ruby: Seq<u8>)
    requires
        valid_utf8(base),
        valid_utf8(ruby),
    ensures
        valid_utf8(ruby_command(base, ruby)),
{
    reveal_strlit("\\ruby{");
    reveal_strlit("}{");
    reveal_strlit("}");
    let head = "\\ruby{";
    let middle = "}{";
    let end = "}";
    is_ascii_chars_encode_utf8(head@);
    is_ascii_chars_encode_utf8(middle@);
    is_ascii_chars_encode_utf8(end@);
    assert(head.spec_bytes() =~= seq![BACKSLASH] + ruby_name() + seq![OPEN_BRACE]);
    assert(middle.spec_bytes() =~= seq![CLOSE_BRACE, OPEN_BRACE]);
    assert(end.spec_bytes() =~= seq![CLOSE_BRACE]);
    valid_utf8_concat(head.spec_bytes(), base);
    valid_utf8_concat(head.spec_bytes() + base, middle.spec_bytes());
    valid_utf8_concat(head.spec_bytes() + base + middle.spec_bytes(), ruby);
    valid_utf8_concat(head.spec_bytes() + base + middle.spec_bytes() + ruby, end.spec_bytes());
}

/// The text of a `ruby` command starts with that command, which takes up
/// the whole of it.
pub proof fn lemma_ruby_command_at_start(base: Seq<u8>, ruby: Seq<u8>)
    requires
        is_argument(base),
        is_argument(ruby),
    ensures
        command_at_start(ruby_command(base, ruby), ruby_arities()) == Ok::<(int, CommandView), int>(
            (
                ruby_command(base, ruby).len() as int,
                CommandView { name: ruby_name(), args: seq![base, ruby] },
            ),
        ),
        ruby_command(base, ruby).len() == 9 + base.len() + ruby.len(),
{
    let b = ruby_command(base, ruby);
    let nb = base.len() as int;
    let nr = ruby.len() as int;
    let first = seq![OPEN_BRACE] + base + seq![CLOSE_BRACE];
    let second = seq![OPEN_BRACE] + ruby + seq![CLOSE_BRACE];
    assert(b.len() == 9 + nb + nr);
    assert(command_name_end(b) == Some(5int)) by {
        reveal_with_fuel(letters_end, 5);
    }
    assert(b.subrange(1, 5) =~= ruby_name());
    assert(arity_of(ruby_arities(), ruby_name()) == Some(2usize));
    assert(argument_end(b, 5) == Some(6 + nb)) by {
        assert(suffix(b, 5) =~= first + second);
        lemma_close_brace_prefix(first, second);
    }
    assert(b.subrange(6, 6 + nb) =~= base);
    assert(argument_end(b, 7 + nb) == Some(8 + nb + nr)) by {
        assert(suffix(b, 7 + nb) =~= second);
    }
    assert(b.subrange(8 + nb, 8 + nb + nr) =~= ruby);
    assert(arguments(b, 5, 0) == Some((Seq::<Seq<u8>>::empty(), 5int)));
    assert(arguments(b, 5, 1) == Some((Seq::<Seq<u8>>::empty().push(base), 7 + nb))) by {
        reveal_with_fuel(arguments, 2);
    }
    assert(Seq::<Seq<u8>>::empty().push(base).push(ruby) =~= seq![base, ruby]);
    assert(arguments(b, 5, 2) == Some((seq![base, ruby], 9 + nb + nr))) by {
        reveal_with_fuel(arguments, 1);
    }
    assert(exactly(b, 5, 2) == Some((seq![base, ruby], 9 + nb + nr)));
}

/// A text that is one `ruby` command is one segment: the annotation that the
/// command stands for.
pub proof fn theorem_ruby_command(base: Seq<u8>, ruby: Seq<u8>)
    requires
        valid_utf8(base),
        valid_utf8(ruby),
        is_argument(base),
        is_argument(ruby),
    ensures
        segments(ruby_command(base, ruby)) == seq![
            Segment::Annotation {
                source: ruby_command(base, ruby),
                outcome: annotation(base, ruby),
            },
        ],
{
    let b = ruby_command(base, ruby);
    let n = b.len() as int;
    let command = CommandView { name: ruby_name(), args: seq![base, ruby] };
    lemma_ruby_command_valid(base, ruby);
    lemma_ruby_command_at_start(base, ruby);
    assert(suffix(b, 0) =~= b);
    assert(next_command(b, ruby_arities(), 0) == Some((0int, n, command)));
    assert(suffix(b, n).len() == 0);
    assert(segments(suffix(b, n)) =~= Seq::<Segment>::empty());
    assert(b.subrange(0, n) =~= b);
    let found = Segment::Annotation { source: b, outcome: annotation(base, ruby) };
    assert(seq![found] + Seq::<Segment>::empty() =~= seq![found]);
}

/// Group by group: where bars cut the base and the reading of a `ruby`
/// command into equally many groups, the command is one annotation of these
/// groups.
pub proof fn theorem_groups(base: Seq<u8>, ruby: Seq<u8>)
    requires
        valid_utf8(base),
        valid_utf8(ruby),
        is_argument(base),
        is_argument(ruby),
        split_bar(base).len() == split_bar(ruby).len(),
    ensures
        segments(ruby_command(base, ruby)) == seq![
            Segment::Annotation {
                source: ruby_command(base, ruby),
                outcome: Ok(RubyView { base: split_bar(base), ruby: split_bar(ruby) }),
            },
        ],
{
    theorem_ruby_command(base, ruby);
}

/// Character by character: where the base of a `ruby` command holds no bar
/// and as many characters as the reading has groups, the command is one
/// annotation of each character of the base with one group of the reading.
pub proof fn theorem_characters(base: Seq<u8>, ruby: Seq<u8>)
    requires
        valid_utf8(base),
        valid_utf8(ruby),
        is_argument(base),
        is_argument(ruby),
        forall|i: int| 0 <= i < base.len() ==> base[i] != BAR,
        split_chars(base).len() == split_bar(ruby).len(),
    ensures
        segments(ruby_command(base, ruby)) == seq![
            Segment::Annotation {
                source: ruby_command(base, ruby),
                outcome: Ok(RubyView { base: split_chars(base), ruby: split_bar(ruby) }),
            },
        ],
{
    theorem_ruby_command(base, ruby);
    lemma_no_bar(base, 0);
    assert(suffix(base, 0) =~= base);
    if split_bar(ruby).len() == 1 {
        lemma_one_character(base);
    }
}

/// A text of one character is that character.
pub proof fn lemma_one_character(b: Seq<u8>)
    requires
        valid_utf8(b),
        split_chars(b).len() == 1,
    ensures
        split_chars(b) == seq![b],
{
    let width = length_of_first_scalar(b);
    let rest = suffix(b, width);
    assert(1 <= width <= b.len());
    assert(valid_utf8(pop_first_scalar(b)));
    assert(rest =~= pop_first_scalar(b));
    assert(split_chars(rest).len() == 0);
    if rest.len() > 0 {
        assert(valid_first_scalar(rest));
        assert(1 <= length_of_first_scalar(rest) <= rest.len());
    }
    assert(b.subrange(0, width) =~= b);
    assert(split_chars(b) =~= seq![b]);
}

/// The texts `parts` with a bar between each two of them.
pub open spec fn joined(parts: Seq<Seq<u8>>) -> Seq<u8>
    decreases parts.len(),
{
    if parts.len() == 0 {
        Seq::empty()
    } else if parts.len() == 1 {
        parts[0]
    } else {
        parts[0] + seq![BAR] + joined(parts.drop_first())
    }
}

/// No bar stands between `from` and the first bar at or after it, which lies
/// within the text or at its end.
pub proof fn lemma_bar_from(b: Seq<u8>, from: int)
    requires
        0 <= from <= b.len(),
    ensures
        from <= bar_from(b, from) <= b.len(),
        bar_from(b, from) < b.len() ==> b[bar_from(b, from)] == BAR,
        forall|i: int| from <= i < bar_from(b, from) ==> b[i] != BAR,
    decreases b.len() - from,
{
    if from < b.len() && b[from] != BAR {
        lemma_bar_from(b, from + 1);
    }
}

/// The parts into which bars cut a text hold no bar, and with a bar between
/// each two of them they are the text again.
pub proof fn theorem_split_bar(b: Seq<u8>, from: int)
    requires
        0 <= from <= b.len(),
    ensures
        split_from(b, from).len() >= 1,
        joined(split_from(b, from)) == suffix(b, from),
        forall|k: int, i: int|
            0 <= k < split_from(b, from).len() && 0 <= i < split_from(b, from)[k].len()
                ==> split_from(b, from)[k][i] != BAR,
    decreases b.len() - from,
{
    let bar = bar_from(b, from);
    lemma_bar_from(b, from);
    if bar < b.len() {
        let first = b.subrange(from, bar);
        let rest = split_from(b, bar + 1);
        theorem_split_bar(b, bar + 1);
        assert(split_from(b, from) == seq![first] + rest);
        assert((seq![first] + rest).drop_first() =~= rest);
        assert(first + seq![BAR] + suffix(b, bar + 1) =~= suffix(b, from));
        assert forall|k: int, i: int|
            0 <= k < split_from(b, from).len() && 0 <= i < split_from(b, from)[k].len()
                implies split_from(b, from)[k][i] != BAR by {
            if k > 0 {
                assert(split_from(b, from)[k] == rest[k - 1]);
            }
        }
    }
}

/// A text without a bar from `from` on is not cut there.
pub proof fn lemma_no_bar(b: Seq<u8>, from: int)
    requires
        0 <= from <= b.len(),
        forall|i: int| from <= i < b.len() ==> b[i] != BAR,
    ensures
        bar_from(b, from) == b.len(),
        split_from(b, from) == seq![suffix(b, from)],
    decreases b.len() - from,
{
    if from < b.len() {
        lemma_no_bar(b, from + 1);
    }
}

/// An offset inside the character that starts at the boundary `i` holds a
/// continuation byte.
pub proof fn lemma_inside_character(b: Seq<u8>, i: int, j: int)
    requires
        valid_utf8(b),
        0 <= i < b.len(),
        is_char_boundary(b, i),
        i < j < i + length_of_first_scalar(suffix(b, i)),
    ensures
        j < b.len(),
        is_continuation_byte(b[j]),
{
    let rest = suffix(b, i);
    assert(valid_utf8(rest));
    assert(rest[j - i] == b[j]);
    assert(rest[0] == b[i]);
}

} // verus!
