use vstd::prelude::*;

verus! {

/// The largest scroll offset: the lines that do not fit in `height` rows.
pub open spec fn max_scroll(total_lines: nat, height: nat) -> nat {
    if total_lines > height {
        (total_lines - height) as nat
    } else {
        0
    }
}

pub open spec fn clamp_spec(scroll: nat, total_lines: nat, height: nat) -> nat {
    if scroll > max_scroll(total_lines, height) {
        max_scroll(total_lines, height)
    } else {
        scroll
    }
}

/// Keeps `scroll` within `[0, total_lines - height]`.
pub fn clamp_scroll(scroll: usize, total_lines: usize, height: usize) -> (r: usize)
    ensures
        r == clamp_spec(scroll as nat, total_lines as nat, height as nat),
{
    let max = total_lines.saturating_sub(height);
    if scroll > max {
        max
    } else {
        scroll
    }
}

/// The scroll offset after the cursor moved up to `line`: when the line lies
/// above the upper third of the view, the view scrolls up by the difference.
pub open spec fn scroll_up_spec(scroll: nat, line: nat, height: nat, total_lines: nat) -> nat {
    let upper = height / 3 + scroll;
    let s = if line < upper {
        if scroll >= (upper - line) as nat {
            (scroll - (upper - line)) as nat
        } else {
            0
        }
    } else {
        scroll
    };
    clamp_spec(s, total_lines, height)
}

/// The scroll offset after the cursor moved down to `line`: when the line lies
/// below the lower third of the view, the view scrolls down by the difference.
pub open spec fn scroll_down_spec(scroll: nat, line: nat, height: nat, total_lines: nat) -> nat {
    let lower = (2 * height) / 3 + scroll;
    let s = if line > lower {
        scroll + (line - lower) as nat
    } else {
        scroll
    };
    clamp_spec(s, total_lines, height)
}

pub fn scroll_after_up(scroll: usize, line: usize, height: usize, total_lines: usize) -> (r: usize)
    ensures
        r == scroll_up_spec(scroll as nat, line as nat, height as nat, total_lines as nat),
{
    let upper = (height / 3) as u128 + scroll as u128;
    let s: usize = if (line as u128) < upper {
        let diff = upper - line as u128;
        if scroll as u128 >= diff {
            (scroll as u128 - diff) as usize
        } else {
            0
        }
    } else {
        scroll
    };
    clamp_scroll(s, total_lines, height)
}

pub fn scroll_after_down(scroll: usize, line: usize, height: usize, total_lines: usize) -> (r: usize)
    ensures
        r == scroll_down_spec(scroll as nat, line as nat, height as nat, total_lines as nat),
{
    let lower = (2 * height as u128) / 3 + scroll as u128;
    if (line as u128) > lower {
        let s = scroll as u128 + (line as u128 - lower);
        let max = total_lines.saturating_sub(height);
        if s > max as u128 {
            max
        } else {
            s as usize
        }
    } else {
        clamp_scroll(scroll, total_lines, height)
    }
}

} // verus!
