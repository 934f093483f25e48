//! The texts of progress reports.

use crate::progress::Checkpoint;
use crate::text;
use crate::text::{decimal, push_repeated};
use vstd::prelude::*;
use vstd::string::StringExecFns;

verus! {

/// The default progress bar width is the same as cargo's.
pub const DEFAULT_PROGRESS_BAR_WIDTH: i32 = 25;

/// Clears the current line
pub const ESC_CLEAR_LINE: &'static str = "\x1b[2K";

pub const ESC_BOLD_ON: &'static str = "\x1b[1m";

pub const ESC_GREEN: &'static str = "\x1b[32;1m";

pub const ESC_CYAN: &'static str = "\x1b[36;1m";

/// Resets all text formatting
pub const ESC_RESET: &'static str = "\x1b[32;0m";

/// How many of `width` places are full, to the nearest whole place.
pub open spec fn full_places(percent_complete: int, width: int) -> int {
    (2 * percent_complete * width + 100) / 200
}

/// A progress bar of the form `[===>  ]`. The arrow head is one of its places,
/// so the last place never turns into `=`.
pub open spec fn bar_text(percent_complete: int, width: int) -> Seq<char> {
    let room = if width > 1 {
        width - 1
    } else {
        0
    };
    let full = if width <= 1 {
        0
    } else if full_places(percent_complete, width) < room {
        full_places(percent_complete, width)
    } else {
        room
    };
    "["@ + Seq::new(full as nat, |i: int| '=') + ">"@ + Seq::new((room - full) as nat, |i: int| ' ')
        + "]"@
}

/// Builds a progress bar of the form `[===>  ]`.
///
/// # Arguments
///
/// * `percent_complete` - Integer percentage of completeness
/// * `width` - Width of the progress bar excluding the open/close bracket.
pub fn create_progress_bar(percent_complete: i32, width: i32) -> (r: String)
    requires
        0 <= percent_complete <= 100,
    ensures
        r@ == bar_text(percent_complete as int, width as int),
        width >= 1 ==> r@.len() == width + 2,
{
    let mut s = "[".to_owned();
    let room: i64 = if width > 1 {
        width as i64 - 1
    } else {
        0
    };
    let full: i64 = if width > 1 {
        assert(0 <= percent_complete * width <= 100 * width) by (nonlinear_arith)
            requires
                0 <= percent_complete <= 100,
                width > 1,
        ;
        assert(2 * percent_complete * width == 2 * (percent_complete * width))
            by (nonlinear_arith);
        let places: i64 = (2 * (percent_complete as i64 * width as i64) + 100) / 200;
        if places < room {
            places
        } else {
            room
        }
    } else {
        0
    };
    proof {
        reveal_strlit("[");
        reveal_strlit(">");
        reveal_strlit("]");
    }
    push_repeated(&mut s, '=', full as usize);
    s.append(">");
    push_repeated(&mut s, ' ', (room - full) as usize);
    s.append("]");
    s
}

/// How much is done, in percent.
pub open spec fn percentage_of(done: int, remaining: int) -> int {
    let total = done + remaining;
    100 * done / (if total > 1 {
        total
    } else {
        1
    })
}

/// Computes how much is done, in percent.
pub fn percentage(done: usize, remaining: usize) -> (r: usize)
    requires
        done + remaining <= usize::MAX,
        100 * done <= usize::MAX,
    ensures
        r == percentage_of(done as int, remaining as int),
        r <= 100,
{
    let total = done + remaining;
    let total: usize = if total > 1 {
        total
    } else {
        1
    };
    let r = 100 * done / total;
    assert(r <= 100) by (nonlinear_arith)
        requires
            r == 100 * done / (total as int),
            done <= total,
            total >= 1,
    ;
    r
}

/// The escape code, or nothing where the terminal does not support it.
pub open spec fn code_of(code: Seq<char>, is_supported: bool) -> Seq<char> {
    if is_supported {
        code
    } else {
        Seq::empty()
    }
}

/// The text of a report on an operation of which it is known how much remains.
pub open spec fn report_text(
    message: Seq<char>,
    done: int,
    remaining: int,
    detail: Option<Seq<char>>,
    bar: Seq<char>,
    escape: bool,
) -> Seq<char> {
    let total = text::decimal_of((done + remaining) as nat);
    let percentage = percentage_of(done, remaining);
    // Clear line and reset cursor
    let start = code_of(ESC_CLEAR_LINE@, escape) + "\r"@ + code_of(ESC_BOLD_ON@, escape);
    if percentage == 100 {
        // Bold green success text
        start + code_of(ESC_GREEN@, escape) + message + code_of(ESC_RESET@, escape) + " ["@ + total
            + "/"@ + total + "]\n"@
    } else {
        // Bold blue status text with percentage
        start + code_of(ESC_CYAN@, escape) + message + code_of(ESC_RESET@, escape) + " "@ + bar
            + " "@ + text::decimal_of(percentage as nat) + "% ["@ + text::decimal_of(done as nat)
            + "/"@ + total + "]"@ + (match detail {
            // Optional "detail" message
            Some(d) => ": "@ + d,
            None => Seq::empty(),
        })
    }
}

/// The text of a report on an operation of which it is not known how much
/// remains.
pub open spec fn open_report_text(message: Seq<char>, done: nat) -> Seq<char> {
    message + "... ["@ + text::decimal_of(done) + "/?]\n"@
}

/// Prints the progress in percent, at most once for each step.
#[derive(Debug)]
pub struct PercentagePrinter {
    message: String,
    step: u32,
    current: i64,
    is_escape_supported: bool,
}

/// What a [`PercentagePrinter`] says.
#[verifier::ext_equal]
pub struct PrinterView {
    pub message: Seq<char>,
    pub step: int,
    /// The percentage that was printed last.
    pub current: int,
    pub is_escape_supported: bool,
}

impl View for PercentagePrinter {
    type V = PrinterView;

    closed spec fn view(&self) -> PrinterView {
        PrinterView {
            message: self.message@,
            step: self.step as int,
            current: self.current as int,
            is_escape_supported: self.is_escape_supported,
        }
    }
}

/// Stepping helps to avoid too many lines being printed, but when using terminal
/// escape codes, we refresh the same line over an over, so it is not needed.
pub open spec fn is_due(p: PrinterView, percentage: int) -> bool {
    percentage - p.current >= p.step || p.is_escape_supported
}

impl PercentagePrinter {
    /// The percentages are in range.
    pub closed spec fn wf(&self) -> bool {
        self.step <= 100 && -100 <= self.current <= 100
    }

    /// Creates a printer.
    pub fn new(message: &str, step: u32, is_escape_supported: bool) -> (r: Self)
        requires
            step <= 100,
        ensures
            r.wf(),
            r@ == (PrinterView {
                message: message@,
                step: step as int,
                current: -100,
                is_escape_supported,
            }),
    {
        PercentagePrinter { message: message.to_owned(), step, current: -100, is_escape_supported }
    }

    /// Appends an escape code, where it is supported.
    fn push_code(&self, s: &mut String, code: &str)
        ensures
            final(s)@ == old(s)@ + code_of(code@, self@.is_escape_supported),
    {
        let ghost before = s@;
        if self.is_escape_supported {
            s.append(code);
        } else {
            assert(before + Seq::empty() =~= before);
        }
    }

    /// Formats the report on a checkpoint, if it is due.
    pub fn report(&mut self, checkpoint: &Checkpoint, detail: Option<&str>) -> (r: Option<String>)
        requires
            old(self).wf(),
            checkpoint.remaining matches Some(n) ==> checkpoint.done + n <= usize::MAX,
            100 * checkpoint.done <= usize::MAX,
        ensures
            final(self).wf(),
            match checkpoint.remaining {
                None => {
                    &&& final(self)@ == old(self)@
                    &&& r matches Some(s) && s@ == open_report_text(
                        old(self)@.message,
                        checkpoint.done as nat,
                    )
                },
                Some(n) => {
                    let p = percentage_of(checkpoint.done as int, n as int);
                    if is_due(old(self)@, p) {
                        &&& final(self)@ == (PrinterView { current: p, ..old(self)@ })
                        &&& r matches Some(s) && s@ == report_text(
                            old(self)@.message,
                            checkpoint.done as int,
                            n as int,
                            match detail {
                                Some(d) => Some(d@),
                                None => None,
                            },
                            bar_text(p, DEFAULT_PROGRESS_BAR_WIDTH as int),
                            old(self)@.is_escape_supported,
                        )
                    } else {
                        r is None && final(self)@ == old(self)@
                    }
                },
            },
    {
        match checkpoint.remaining {
            None => {
                let mut s = self.message.clone();
                s.append("... [");
                s.append(decimal(checkpoint.done as u64).as_str());
                s.append("/?]\n");
                Some(s)
            },
            Some(remaining) => {
                let percentage = percentage(checkpoint.done, remaining);
                let total = decimal((checkpoint.done + remaining) as u64);
                let needs_update = (percentage as i64) - self.current >= self.step as i64;
                if !needs_update && !self.is_escape_supported {
                    return None;
                }
                self.current = percentage as i64;
                let mut s = String::new();
                // Clear line and reset cursor
                self.push_code(&mut s, ESC_CLEAR_LINE);
                s.append("\r");
                self.push_code(&mut s, ESC_BOLD_ON);
                let ghost escape = self@.is_escape_supported;
                let ghost start = code_of(ESC_CLEAR_LINE@, escape) + "\r"@ + code_of(
                    ESC_BOLD_ON@,
                    escape,
                );
                assert(s@ =~= start);
                if percentage == 100 {
                    // Bold green success text
                    self.push_code(&mut s, ESC_GREEN);
                    s.append(self.message.as_str());
                    self.push_code(&mut s, ESC_RESET);
                    s.append(" [");
                    s.append(total.as_str());
                    s.append("/");
                    s.append(total.as_str());
                    s.append("]\n");
                } else {
                    // Bold blue status text with percentage
                    self.push_code(&mut s, ESC_CYAN);
                    s.append(self.message.as_str());
                    self.push_code(&mut s, ESC_RESET);
                    s.append(" ");
                    s.append(
                        create_progress_bar(percentage as i32, DEFAULT_PROGRESS_BAR_WIDTH).as_str(),
                    );
                    s.append(" ");
                    s.append(decimal(percentage as u64).as_str());
                    s.append("% [");
                    s.append(decimal(checkpoint.done as u64).as_str());
                    s.append("/");
                    s.append(total.as_str());
                    s.append("]");
                    // Optional "detail" message
                    match detail {
                        Some(detail) => {
                            let ghost before = s@;
                            s.append(": ");
                            s.append(detail);
                            assert(s@ =~= before + (": "@ + detail@));
                        },
                        None => {
                            assert(s@ + Seq::<char>::empty() =~= s@);
                        },
                    }
                }
                Some(s)
            },
        }
    }
}

/// The part of a bar that is full is what is complete of the width, rounded to
/// whole places, but for the place of its head. One head divides the full places
/// from the empty ones.
pub proof fn law_bar_shows_what_is_complete(percent_complete: int, width: int)
    requires
        0 <= percent_complete <= 100,
        width >= 1,
    ensures
        ({
            let bar = bar_text(percent_complete, width);
            &&& bar.len() == width + 2
            &&& bar[0] == '['
            &&& bar[width + 1] == ']'
            &&& exists|head: int|
                {
                    &&& 1 <= head <= width
                    &&& #[trigger] bar[head] == '>'
                    &&& forall|i: int| 1 <= i < head ==> #[trigger] bar[i] == '='
                    &&& forall|i: int| head < i <= width ==> #[trigger] bar[i] == ' '
                    &&& 100 * (head - 1) <= percent_complete * width + 50
                    &&& head == width || percent_complete * width < 100 * (head - 1) + 50
                }
        }),
{
    reveal_strlit("[");
    reveal_strlit(">");
    reveal_strlit("]");
    let bar = bar_text(percent_complete, width);
    let done = percent_complete * width;
    assert(done >= 0) by (nonlinear_arith)
        requires
            percent_complete >= 0,
            width >= 1,
            done == percent_complete * width,
    ;
    let places = full_places(percent_complete, width);
    assert(2 * percent_complete * width == 2 * done) by (nonlinear_arith)
        requires
            done == percent_complete * width,
    ;
    assert(places == (2 * done + 100) / 200);
    let full = if width <= 1 {
        0
    } else if places < width - 1 {
        places
    } else {
        width - 1
    };
    assert(bar[full + 1] == '>');
}

/// A percentage is the part of the total that is done, rounded down.
pub proof fn law_percentage_is_part_of_total(done: int, remaining: int)
    requires
        0 <= done,
        0 <= remaining,
        done + remaining > 0,
    ensures
        percentage_of(done, remaining) * (done + remaining) <= 100 * done,
        100 * done < (percentage_of(done, remaining) + 1) * (done + remaining),
        percentage_of(done, remaining) == 100 <==> remaining == 0,
{
    let total = done + remaining;
    let p = percentage_of(done, remaining);
    assert(p * total <= 100 * done && 100 * done < (p + 1) * total) by (nonlinear_arith)
        requires
            total > 0,
            p == 100 * done / total,
    ;
    if remaining == 0 {
        assert(p == 100) by (nonlinear_arith)
            requires
                p * done <= 100 * done,
                100 * done < (p + 1) * done,
                done > 0,
        ;
    } else if p == 100 {
        assert(100 * total == 100 * done + 100 * remaining);
    }
}

/// What a report shows: the message; the percentage and the counts while work
/// remains, followed by the detail if there is one; and the total alone on a line
/// that ends once all is done. Without escape codes there is nothing else.
pub proof fn law_plain_report(
    message: Seq<char>,
    done: int,
    remaining: int,
    detail: Option<Seq<char>>,
    bar: Seq<char>,
)
    requires
        0 <= done,
        0 <= remaining,
        done + remaining > 0,
    ensures
        ({
            let shown = report_text(message, done, remaining, detail, bar, false);
            let total = text::decimal_of((done + remaining) as nat);
            &&& (seq!['\r'] + message + seq![' ']).is_prefix_of(shown)
            &&& remaining == 0 ==> shown == seq!['\r'] + message + seq![' ', '['] + total + seq!['/']
                + total + seq![']', '\n']
            &&& remaining > 0 ==> shown == seq!['\r'] + message + seq![' '] + bar + seq![' ']
                + text::decimal_of(percentage_of(done, remaining) as nat) + seq!['%', ' ', '[']
                + text::decimal_of(done as nat) + seq!['/'] + total + seq![']'] + (match detail {
                Some(d) => seq![':', ' '] + d,
                None => Seq::empty(),
            })
        }),
{
    reveal_strlit("\r");
    reveal_strlit(" ");
    reveal_strlit(" [");
    reveal_strlit("/");
    reveal_strlit("]\n");
    reveal_strlit("% [");
    reveal_strlit("]");
    reveal_strlit(": ");
    law_percentage_is_part_of_total(done, remaining);
    let shown = report_text(message, done, remaining, detail, bar, false);
    let total = text::decimal_of((done + remaining) as nat);
    let start = seq!['\r'] + message + seq![' '];
    if remaining == 0 {
        assert(shown =~= seq!['\r'] + message + seq![' ', '['] + total + seq!['/'] + total + seq![
            ']',
            '\n',
        ]);
    } else {
        assert(shown =~= seq!['\r'] + message + seq![' '] + bar + seq![' '] + text::decimal_of(
            percentage_of(done, remaining) as nat,
        ) + seq!['%', ' ', '['] + text::decimal_of(done as nat) + seq!['/'] + total + seq![']'] + (
        match detail {
            Some(d) => seq![':', ' '] + d,
            None => Seq::empty(),
        }));
    }
    assert(start =~= shown.subrange(0, start.len() as int));
}

} // verus!
