//! Scripts: texts of records `column|row|milliseconds`, one to a line, and
//! the actions they describe.

use vstd::prelude::*;
use crate::grid::cell_to_pixel;
use crate::grid::grid_origin;
use crate::grid::grid_start;
use crate::grid::pixel_of;
use crate::grid::Screen;
use crate::number::number_value;
use crate::number::Value;
use crate::scale::denominator;
use crate::scale::numerator;
use crate::scale::pow10;
use crate::time::units_of;
use crate::time::SPAN_LIMIT;
use crate::number::parse_number;
use crate::text::chars_of;
use crate::text::pieces;
use crate::text::split;
use crate::text::trim;
use crate::text::trimmed;
use crate::time::due;
use crate::time::nanos_of;
use crate::time::offset_of_millis;
use crate::time::Offset;
use crate::time::NANOS_PER_MILLI;

verus! {

/// One placement of the pointer: the pixel to place it on, and when.
#[derive(Clone, Copy, Debug, PartialEq, Eq)]
pub struct Action {
    pub x: i32,
    pub y: i32,
    pub t: Offset,
}

/// The character between the fields of a record.
pub const FIELD_SEPARATOR: char = '|';

/// The character between the lines of a script.
pub const LINE_SEPARATOR: char = '\n';

/// The action that a line describes on the given screen, if it is a record:
/// at least three fields once the white space round the line is gone, of
/// which the first three are numbers. The first is the column and the second
/// the row of a cell, the third a time in milliseconds.
pub open spec fn record_action(line: Seq<char>, screen: Screen) -> Option<Action> {
    let fields = pieces(trimmed(line), FIELD_SEPARATOR);
    if fields.len() < 3 {
        None
    } else {
        match (number_value(fields[0]), number_value(fields[1]), number_value(fields[2])) {
            (Some(column), Some(row), Some(millis)) => Some(
                Action {
                    x: pixel_of(grid_origin(screen.width as int), column) as i32,
                    y: pixel_of(grid_origin(screen.height as int), row) as i32,
                    t: due(nanos_of(millis, NANOS_PER_MILLI as nat)),
                },
            ),
            _ => None,
        }
    }
}

/// The actions that the lines describe, in the order of the lines; a line
/// that is no record describes none.
pub open spec fn line_actions(lines: Seq<Seq<char>>, screen: Screen) -> Seq<Action>
    decreases lines.len(),
{
    if lines.len() == 0 {
        seq![]
    } else {
        line_actions(lines.drop_last(), screen) + match record_action(lines.last(), screen) {
            Some(a) => seq![a],
            None => seq![],
        }
    }
}

/// The actions that a script describes.
pub open spec fn script_actions(contents: Seq<char>, screen: Screen) -> Seq<Action> {
    line_actions(pieces(contents, LINE_SEPARATOR), screen)
}

fn parse_chars(line: &Vec<char>, screen: Screen) -> (r: Option<Action>)
    ensures
        r == record_action(line@, screen),
{
    let bare = trim(line);
    let fields = split(&bare, FIELD_SEPARATOR);
    if fields.len() < 3 {
        return None;
    }
    let column = match parse_number(&fields[0]) {
        Some(n) => n,
        None => {
            return None;
        },
    };
    let row = match parse_number(&fields[1]) {
        Some(n) => n,
        None => {
            return None;
        },
    };
    let millis = match parse_number(&fields[2]) {
        Some(n) => n,
        None => {
            return None;
        },
    };
    let x = cell_to_pixel(grid_start(screen.width), &column);
    let y = cell_to_pixel(grid_start(screen.height), &row);
    Some(Action { x, y, t: offset_of_millis(&millis) })
}

/// Reads one line of a script.
pub fn parse_record(line: &str, screen: Screen) -> (r: Option<Action>)
    ensures
        r == record_action(line@, screen),
{
    let chars = chars_of(line);
    parse_chars(&chars, screen)
}

/// Reads a script: the actions of its records, in their order. Lines that
/// are no records are passed over.
pub fn parse_actions(contents: &str, screen: Screen) -> (actions: Vec<Action>)
    ensures
        actions@ == script_actions(contents@, screen),
{
    let chars = chars_of(contents);
    let lines = split(&chars, LINE_SEPARATOR);
    let ghost all = pieces(contents@, LINE_SEPARATOR);
    let mut actions: Vec<Action> = Vec::new();
    let mut i: usize = 0;
    while i < lines.len()
        invariant
            i <= lines@.len(),
            lines@.len() == all.len(),
            forall|k: int| 0 <= k < lines@.len() ==> (#[trigger] lines@[k])@ == all[k],
            actions@ == line_actions(all.take(i as int), screen),
        decreases lines@.len() - i,
    {
        proof {
            let next = all.take(i + 1);
            assert(next.drop_last() == all.take(i as int));
            assert(next.last() == all[i as int]);
        }
        match parse_chars(&lines[i], screen) {
            Some(a) => {
                actions.push(a);
            },
            None => {},
        }
        i += 1;
    }
    proof {
        assert(all.take(i as int) == all);
    }
    actions
}


/// The actions of lines put one behind the other are the actions of the
/// first lines, then those of the others.
pub proof fn lemma_line_actions_concat(a: Seq<Seq<char>>, b: Seq<Seq<char>>, screen: Screen)
    ensures
        line_actions(a + b, screen) == line_actions(a, screen) + line_actions(b, screen),
    decreases b.len(),
{
    if b.len() == 0 {
        assert(a + b =~= a);
        assert(line_actions(a, screen) + seq![] =~= line_actions(a, screen));
    } else {
        lemma_line_actions_concat(a, b.drop_last(), screen);
        assert((a + b).drop_last() =~= a + b.drop_last());
        assert((a + b).last() == b.last());
        let tail = match record_action(b.last(), screen) {
            Some(act) => seq![act],
            None => seq![],
        };
        assert(line_actions(a, screen) + line_actions(b.drop_last(), screen) + tail
            =~= line_actions(a, screen) + (line_actions(b.drop_last(), screen) + tail));
    }
}

/// A line yields an action exactly if it has three fields or more and the
/// first three are numbers.
pub proof fn lemma_record_needs_three_numbers(line: Seq<char>, screen: Screen)
    ensures
        record_action(line, screen) is Some <==> {
            let fields = pieces(trimmed(line), FIELD_SEPARATOR);
            &&& fields.len() >= 3
            &&& number_value(fields[0]) is Some
            &&& number_value(fields[1]) is Some
            &&& number_value(fields[2]) is Some
        },
{
}

/// A line that is no record adds nothing, wherever it stands among the
/// lines, and takes nothing from the lines round it.
pub proof fn lemma_malformed_line_adds_nothing(
    before: Seq<Seq<char>>,
    line: Seq<char>,
    after: Seq<Seq<char>>,
    screen: Screen,
)
    requires
        record_action(line, screen) is None,
    ensures
        line_actions(before + seq![line] + after, screen) == line_actions(before + after, screen),
{
    lemma_line_actions_concat(before + seq![line], after, screen);
    lemma_line_actions_concat(before, seq![line], screen);
    lemma_line_actions_concat(before, after, screen);
    assert(seq![line].drop_last() =~= Seq::<Seq<char>>::empty());
    reveal_with_fuel(line_actions, 2);
    assert(line_actions(seq![line], screen) =~= seq![]);
    assert(line_actions(before, screen) + seq![] =~= line_actions(before, screen));
}

/// The actions of two scripts joined by a line break are the actions of the
/// first, then those of the second.
pub proof fn lemma_script_join(a: Seq<char>, b: Seq<char>, screen: Screen)
    ensures
        script_actions(a + seq![LINE_SEPARATOR] + b, screen) == script_actions(a, screen)
            + script_actions(b, screen),
{
    crate::text::lemma_pieces_join(a, b, LINE_SEPARATOR);
    lemma_line_actions_concat(pieces(a, LINE_SEPARATOR), pieces(b, LINE_SEPARATOR), screen);
}

/// A line that is no record, put between two scripts, changes nothing of
/// what they describe.
pub proof fn lemma_malformed_line_in_script(
    a: Seq<char>,
    line: Seq<char>,
    b: Seq<char>,
    screen: Screen,
)
    requires
        !line.contains(LINE_SEPARATOR),
        record_action(line, screen) is None,
    ensures
        script_actions(a + seq![LINE_SEPARATOR] + line + seq![LINE_SEPARATOR] + b, screen)
            == script_actions(a + seq![LINE_SEPARATOR] + b, screen),
{
    lemma_script_join(a + seq![LINE_SEPARATOR] + line, b, screen);
    lemma_script_join(a, line, screen);
    lemma_script_join(a, b, screen);
    crate::text::lemma_pieces_single(line, LINE_SEPARATOR);
    assert(seq![line].drop_last() =~= Seq::<Seq<char>>::empty());
    reveal_with_fuel(line_actions, 2);
    assert(script_actions(line, screen) =~= seq![]);
    assert(script_actions(a, screen) + seq![] =~= script_actions(a, screen));
}

/// Reading is a function of the script and the screen: two readings of one
/// script on one screen are the same actions.
pub proof fn lemma_same_script_same_actions(
    first: Vec<Action>,
    second: Vec<Action>,
    contents: Seq<char>,
    screen: Screen,
)
    requires
        first@ == script_actions(contents, screen),
        second@ == script_actions(contents, screen),
    ensures
        first@ == second@,
{
}


/// The action of a record is due at the time that its third field gives in
/// milliseconds, which is a thousandth of it in seconds: at the nanosecond
/// nearest to it, and with no more than six places behind the point at
/// exactly that time.
pub proof fn lemma_record_time(line: Seq<char>, screen: Screen, m: nat, e: int)
    requires
        record_action(line, screen) is Some,
        number_value(pieces(trimmed(line), FIELD_SEPARATOR)[2]) == Some(
            Value::Finite { negative: false, mantissa: m, exponent: e },
        ),
        units_of(m, e, NANOS_PER_MILLI as nat) < SPAN_LIMIT,
    ensures
        record_action(line, screen)->0.t@ == Some(units_of(m, e, NANOS_PER_MILLI as nat)),
        ({
            let den = denominator(e) as int;
            let num = numerator(m, e, NANOS_PER_MILLI as nat) as int;
            -den <= 2 * (units_of(m, e, NANOS_PER_MILLI as nat) * den - num) <= den
        }),
        e >= -6 ==> units_of(m, e, NANOS_PER_MILLI as nat) == m * pow10((e + 6) as nat),
{
    crate::time::lemma_nanos_of_span(units_of(m, e, NANOS_PER_MILLI as nat));
    crate::time::lemma_units_nearest(m, e, NANOS_PER_MILLI as nat);
    if e >= -6 {
        crate::time::lemma_millis_exact(m, e);
    }
}

} // verus!
