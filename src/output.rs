//! Lines of the multiplexed output: `[HH:MM:SS] <name padded> | <text>`,
//! with the prefix coloured by the process type's label slot.
use vstd::prelude::*;

verus! {

/// How many colours the label slots cycle through.
pub const PALETTE_SIZE: usize = 6;

/// The colour of a label slot; `None` is the supervisor's own `system` slot.
pub open spec fn color_code(index: Option<usize>) -> Seq<char> {
    match index {
        None => "\u{1b}[37m"@,
        Some(i) => if i % 6 == 0 {
            "\u{1b}[36m"@
        } else if i % 6 == 1 {
            "\u{1b}[33m"@
        } else if i % 6 == 2 {
            "\u{1b}[32m"@
        } else if i % 6 == 3 {
            "\u{1b}[35m"@
        } else if i % 6 == 4 {
            "\u{1b}[34m"@
        } else {
            "\u{1b}[31m"@
        },
    }
}

pub open spec fn reset_code() -> Seq<char> {
    "\u{1b}[0m"@
}

/// `n` spaces.
pub open spec fn spaces(n: nat) -> Seq<char> {
    Seq::new(n, |i: int| ' ')
}

/// `name`, followed by spaces up to `width` characters.
pub open spec fn padded(name: Seq<char>, width: nat) -> Seq<char> {
    if name.len() >= width {
        name
    } else {
        name + spaces((width - name.len()) as nat)
    }
}

/// The prefix `[time] name |`, without colour.
pub open spec fn plain_prefix(name: Seq<char>, width: nat, time: Option<Seq<char>>) -> Seq<char> {
    let stamp = match time {
        Some(t) => seq!['['] + t + seq![']', ' '],
        None => Seq::empty(),
    };
    stamp + padded(name, width) + seq![' ', '|']
}

/// A whole output line, without its line break.
pub open spec fn output_line(
    name: Seq<char>,
    width: nat,
    index: Option<usize>,
    time: Option<Seq<char>>,
    is_color: bool,
    text: Seq<char>,
) -> Seq<char> {
    let prefix = plain_prefix(name, width, time);
    if is_color {
        color_code(index) + prefix + reset_code() + seq![' '] + text
    } else {
        prefix + seq![' '] + text
    }
}

fn color(index: Option<usize>) -> (r: &'static str)
    ensures
        r@ == color_code(index),
{
    match index {
        None => "\u{1b}[37m",
        Some(i) => {
            let k = i % PALETTE_SIZE;
            if k == 0 {
                "\u{1b}[36m"
            } else if k == 1 {
                "\u{1b}[33m"
            } else if k == 2 {
                "\u{1b}[32m"
            } else if k == 3 {
                "\u{1b}[35m"
            } else if k == 4 {
                "\u{1b}[34m"
            } else {
                "\u{1b}[31m"
            }
        },
    }
}

/// `name` followed by spaces up to `width` characters.
pub fn pad_name(name: &str, width: usize) -> (r: String)
    ensures
        r@ == padded(name@, width as nat),
{
    let n = name.unicode_len();
    let mut s = String::from_str(name);
    if n >= width {
        return s;
    }
    let mut k: usize = n;
    proof {
        reveal_strlit(" ");
        assert(s@ =~= name@ + spaces(0));
    }
    while k < width
        invariant
            n == name@.len(),
            n <= k <= width,
            s@ == name@ + spaces((k - n) as nat),
            " "@ == seq![' '],
        decreases width - k,
    {
        s.append(" ");
        k = k + 1;
        proof {
            assert(s@ =~= name@ + spaces((k - n) as nat));
        }
    }
    s
}

/// Formats one output line: an optional `[time] ` stamp, the name padded to
/// `width`, ` | ` and the text; with `is_color`, the prefix up to `|` is
/// wrapped in the colour of the label slot `index` (`None` for `system`).
pub fn format_line(
    name: &str,
    width: usize,
    index: Option<usize>,
    time: Option<&str>,
    is_color: bool,
    text: &str,
) -> (r: String)
    ensures
        r@ == output_line(
            name@,
            width as nat,
            index,
            match time {
                Some(t) => Some(t@),
                None => None,
            },
            is_color,
            text@,
        ),
{
    proof {
        reveal_strlit("[");
        reveal_strlit("] ");
        reveal_strlit(" |");
        reveal_strlit(" ");
    }
    let mut prefix = String::new();
    match time {
        Some(t) => {
            prefix.append("[");
            prefix.append(t);
            prefix.append("] ");
        },
        None => {},
    }
    let p = pad_name(name, width);
    prefix.append(p.as_str());
    prefix.append(" |");
    let ghost tv = match time {
        Some(t) => Some(t@),
        None => None,
    };
    proof {
        assert(prefix@ =~= plain_prefix(name@, width as nat, tv));
    }
    let mut line = String::new();
    if is_color {
        line.append(color(index));
        line.append(prefix.as_str());
        line.append("\u{1b}[0m");
    } else {
        line.append(prefix.as_str());
    }
    line.append(" ");
    line.append(text);
    proof {
        assert(line@ =~= output_line(name@, width as nat, index, tv, is_color, text@));
    }
    line
}

} // verus!
