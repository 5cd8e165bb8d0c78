//! Replay: the events of a recorded scenario, and the lines that they stand on.
use vstd::prelude::*;
use crate::text;
use crate::types::alpha::RawEvent;
use crate::types::market::NormalizedTick;

verus! {

/// One line of a recording: a venue's quote, or an event from outside.
#[derive(Debug)]
pub enum ReplayEvent {
    Tick(NormalizedTick),
    Alpha(RawEvent),
}

/// Whether a character is white space.
pub open spec fn is_space(ch: char) -> bool {
    ||| 0x09 <= ch as u32 <= 0x0D
    ||| ch as u32 == 0x20
    ||| ch as u32 == 0x85
    ||| ch as u32 == 0xA0
    ||| ch as u32 == 0x1680
    ||| 0x2000 <= ch as u32 <= 0x200A
    ||| ch as u32 == 0x2028
    ||| ch as u32 == 0x2029
    ||| ch as u32 == 0x202F
    ||| ch as u32 == 0x205F
    ||| ch as u32 == 0x3000
}

fn char_is_space(ch: char) -> (r: bool)
    ensures
        r == is_space(ch),
{
    let n: u32 = ch as u32;
    (0x09 <= n && n <= 0x0D) || n == 0x20 || n == 0x85 || n == 0xA0 || n == 0x1680 || (0x2000 <= n
        && n <= 0x200A) || n == 0x2028 || n == 0x2029 || n == 0x202F || n == 0x205F || n == 0x3000
}

/// The text without the white space before it and behind it.
pub open spec fn trimmed(s: Seq<char>) -> Seq<char>
    decreases s.len(),
{
    if s.len() == 0 {
        s
    } else if is_space(s[0]) {
        trimmed(s.drop_first())
    } else if is_space(s.last()) {
        trimmed(s.drop_last())
    } else {
        s
    }
}

/// A line to be read, with its number in the recording.
#[derive(Debug)]
pub struct NumberedLine {
    pub number: usize,
    pub line: String,
}

/// A line to be read, as plain values.
pub struct Line {
    pub number: int,
    pub line: Seq<char>,
}

impl View for NumberedLine {
    type V = Line;

    open spec fn view(&self) -> Line {
        Line { number: self.number as int, line: self.line@ }
    }
}

/// Of some lines those that are neither blank nor a comment, without the white space round
/// them, and numbered from one.
pub open spec fn readable(lines: Seq<Seq<char>>) -> Seq<Line>
    decreases lines.len(),
{
    if lines.len() == 0 {
        Seq::empty()
    } else {
        let line = trimmed(lines.last());
        let before = readable(lines.drop_last());
        if line.len() == 0 || line[0] == '#' {
            before
        } else {
            before.push(Line { number: lines.len() as int, line })
        }
    }
}

fn trim(s: &Vec<char>) -> (r: String)
    ensures
        r@ == trimmed(s@),
{
    let mut from: usize = 0;
    let mut to: usize = s.len();
    assert(s@.subrange(0, s.len() as int) =~= s@);
    while from < to && char_is_space(s[from])
        invariant
            from <= to <= s.len(),
            trimmed(s@.subrange(from as int, to as int)) == trimmed(s@),
        decreases to - from,
    {
        assert(s@.subrange(from as int, to as int).drop_first() =~= s@.subrange(
            from + 1,
            to as int,
        ));
        from += 1;
    }
    while from < to && char_is_space(s[to - 1])
        invariant
            from <= to <= s.len(),
            from < to ==> !is_space(s@[from as int]),
            trimmed(s@.subrange(from as int, to as int)) == trimmed(s@),
        decreases to - from,
    {
        assert(s@.subrange(from as int, to as int).drop_last() =~= s@.subrange(
            from as int,
            to - 1,
        ));
        to -= 1;
    }
    text::piece(s.as_slice(), from, to)
}

/// The lines of a recording that hold an event: neither blank nor a comment.
pub fn replay_lines(content: &str) -> (r: Vec<NumberedLine>)
    ensures
        r@.map_values(|l: NumberedLine| l@) == readable(text::split_on(content@, '\n')),
{
    let chars = text::chars_of(content);
    let lines = text::split(chars.as_slice(), '\n');
    let ghost all = text::split_on(content@, '\n');
    let mut out: Vec<NumberedLine> = Vec::new();
    let mut i: usize = 0;
    assert(out@.map_values(|l: NumberedLine| l@) =~= readable(all.take(0)));
    while i < lines.len()
        invariant
            i <= lines.len(),
            lines.len() == all.len(),
            forall|j: int| 0 <= j < lines.len() ==> (#[trigger] lines[j])@ == all[j],
            out@.map_values(|l: NumberedLine| l@) == readable(all.take(i as int)),
        decreases lines.len() - i,
    {
        assert(all.take(i + 1).drop_last() =~= all.take(i as int));
        let line = trim(&lines[i]);
        let chars = text::chars_of(line.as_str());
        let ghost before = out@;
        if chars.len() > 0 && chars[0] != '#' {
            out.push(NumberedLine { number: i + 1, line });
            assert(out@.map_values(|l: NumberedLine| l@) =~= before.map_values(
                |l: NumberedLine| l@,
            ).push(Line { number: i + 1, line: line@ }));
        }
        i += 1;
    }
    assert(all.take(i as int) =~= all);
    out
}

/// The message for a line that could not be read.
pub fn line_error(number: usize, error: &str) -> (r: String)
    ensures
        r@ == "line "@ + text::decimal(number as int) + ": "@ + error@,
{
    let mut s = "line ".to_owned();
    s.append(text::decimal_u64(number as u64).as_str());
    s.append(": ");
    s.append(error);
    s
}

/// White space round a line changes nothing.
pub proof fn law_trim_ignores_space(s: Seq<char>, ch: char)
    requires
        is_space(ch),
    ensures
        trimmed(seq![ch] + s) == trimmed(s),
        trimmed(s.push(ch)) == trimmed(s),
    decreases s.len(),
{
    assert((seq![ch] + s).drop_first() =~= s);
    let t = s.push(ch);
    assert(t.drop_last() =~= s);
    if s.len() == 0 {
        assert(t.drop_first() =~= s);
    } else if is_space(s[0]) {
        law_trim_ignores_space(s.drop_first(), ch);
        assert(t.drop_first() =~= s.drop_first().push(ch));
    }
}

} // verus!
