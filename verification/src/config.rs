//! The configuration of a listing and the text form of its depth bound.

use vstd::prelude::*;

use crate::text::chars_of;

verus! {

/// What a listing is asked to show. It is fixed before the listing starts
/// and read at every level of it.
#[derive(Clone, Copy, Debug, PartialEq, Eq, Structural)]
pub struct Config {
    /// The depth of the deepest directory whose children are listed; the
    /// starting directory has depth 0.
    pub max_depth: usize,
    /// Directories are neither printed nor entered.
    pub files_only: bool,
    /// Files are not printed.
    pub dirs_only: bool,
    /// Entries whose name begins with `.` are listed like any other.
    pub show_hidden: bool,
}

/// A hidden name begins with `.`.
pub open spec fn is_hidden(name: Seq<char>) -> bool {
    name.len() > 0 && name[0] == '.'
}

impl Config {
    /// Whether an entry of this name passes the hidden-name filter.
    pub open spec fn shows(self, name: Seq<char>) -> bool {
        self.show_hidden || !is_hidden(name)
    }

    /// Whether an entry of this type passes the type filter.
    pub open spec fn keeps(self, is_dir: bool) -> bool {
        if is_dir {
            !self.files_only
        } else {
            !self.dirs_only
        }
    }

    /// Whether the children of a directory of depth `depth` are listed.
    pub open spec fn lists(self, depth: nat) -> bool {
        depth <= self.max_depth
    }

    /// The configuration with the given depth bound and flags.
    pub fn new(max_depth: usize, files_only: bool, dirs_only: bool, show_hidden: bool) -> (config:
        Config)
        ensures
            config == (Config { max_depth, files_only, dirs_only, show_hidden }),
    {
        Config { max_depth, files_only, dirs_only, show_hidden }
    }

    /// Decides the hidden-name filter for one name.
    pub fn is_shown(&self, name: &str) -> (shown: bool)
        ensures
            shown == self.shows(name@),
    {
        self.show_hidden || name.is_empty() || name.get_char(0) != '.'
    }

    /// Decides the type filter for one entry.
    pub fn is_kept(&self, is_dir: bool) -> (kept: bool)
        ensures
            kept == self.keeps(is_dir),
    {
        if is_dir {
            !self.files_only
        } else {
            !self.dirs_only
        }
    }
}

/// A decimal digit.
pub open spec fn is_digit(c: char) -> bool {
    '0' <= c && c <= '9'
}

/// The number that a decimal digit stands for.
pub open spec fn digit_value(c: char) -> nat {
    (c as u8 - '0' as u8) as nat
}

/// The number that a text of decimal digits stands for; 0 for the empty text.
pub open spec fn decimal_value(digits: Seq<char>) -> nat
    decreases digits.len(),
{
    if digits.len() == 0 {
        0
    } else {
        decimal_value(digits.drop_last()) * 10 + digit_value(digits.last())
    }
}

/// Every character of `text` is a decimal digit.
pub open spec fn all_digits(text: Seq<char>) -> bool {
    forall|i: int| 0 <= i < text.len() ==> is_digit(#[trigger] text[i])
}

/// `text` without a leading `+`.
pub open spec fn unsigned_part(text: Seq<char>) -> Seq<char> {
    if text.len() > 0 && text[0] == '+' {
        text.skip(1)
    } else {
        text
    }
}

/// The depth bound that `text` stands for: an optional `+`, then one or more
/// decimal digits and nothing else, of a value that a `usize` can hold.
pub open spec fn depth_of_text(text: Seq<char>) -> Option<usize> {
    let digits = unsigned_part(text);
    if digits.len() > 0 && all_digits(digits) && decimal_value(digits) <= usize::MAX {
        Some(decimal_value(digits) as usize)
    } else {
        None
    }
}

/// A text of digits stands for no less than any of its leading parts.
proof fn lemma_decimal_value_grows(digits: Seq<char>, n: int)
    requires
        0 <= n <= digits.len(),
    ensures
        decimal_value(digits.take(n)) <= decimal_value(digits),
    decreases digits.len() - n,
{
    if n == digits.len() {
        assert(digits.take(n) == digits);
    } else {
        lemma_decimal_value_grows(digits, n + 1);
        assert(digits.take(n + 1).drop_last() == digits.take(n));
    }
}

/// Reads a depth bound from the text of a command-line argument.
pub fn parse_depth(text: &str) -> (depth: Option<usize>)
    ensures
        depth == depth_of_text(text@),
{
    let chars = chars_of(text);
    let n = chars.len();
    let start: usize = if n > 0 && chars[0] == '+' {
        1
    } else {
        0
    };
    let ghost digits = unsigned_part(text@);
    assert(digits == chars@.skip(start as int));
    if start == n {
        return None;
    }
    let mut value: usize = 0;
    let mut i: usize = start;
    while i < n
        invariant
            n == chars@.len(),
            start <= i <= n,
            digits == chars@.skip(start as int),
            digits == unsigned_part(text@),
            all_digits(digits.take(i - start)),
            value == decimal_value(digits.take(i - start)),
        decreases n - i,
    {
        let c = chars[i];
        let ghost k = i - start;
        proof {
            let next = digits.take(k + 1);
            assert(next.drop_last() == digits.take(k));
            assert(next.last() == c);
            assert(digits[k] == c);
            assert(decimal_value(next) == value * 10 + digit_value(c));
            lemma_decimal_value_grows(digits, k + 1);
        }
        if !('0' <= c && c <= '9') {
            assert(!is_digit(digits[k]));
            return None;
        }
        let d: usize = (c as u8 - '0' as u8) as usize;
        let tens = match value.checked_mul(10) {
            Some(t) => t,
            None => {
                return None;
            },
        };
        value = match tens.checked_add(d) {
            Some(v) => v,
            None => {
                return None;
            },
        };
        assert(all_digits(digits.take(k + 1))) by {
            assert forall|j: int| 0 <= j < k + 1 implies is_digit(
                #[trigger] digits.take(k + 1)[j],
            ) by {
                if j < k {
                    assert(digits.take(k)[j] == digits.take(k + 1)[j]);
                }
            }
        }
        i += 1;
    }
    assert(digits.take(n - start) == digits);
    Some(value)
}

} // verus!
