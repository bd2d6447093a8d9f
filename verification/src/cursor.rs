use vstd::prelude::*;
use vstd::string::StrSliceExecFns;

verus! {

/// The cursor the player steers over the board: a position inside the
/// grid, the direction picked by the token being processed, and the
/// action the current input line asks for.
#[verifier::ext_equal]
pub struct Cursor {
    pub currently_moving: Moves,
    pub position: [usize; 2],
    pub action: CursorActions,
}

#[derive(PartialEq, Eq, Structural, Clone, Copy, Debug)]
pub enum CursorActions {
    Select,
    Mark,
    FailedInput,
    Move,
}

#[derive(PartialEq, Eq, Structural, Clone, Copy, Debug)]
pub enum Moves {
    Up,
    Down,
    Left,
    Right,
    Stay,
}

/// A decimal digit, by its unicode value.
pub open spec fn is_digit(c: char) -> bool {
    48 <= c as u32 && c as u32 <= 57
}

pub open spec fn digit_val(c: char) -> int {
    c as u32 - 48
}

pub open spec fn all_digits(s: Seq<char>) -> bool {
    forall|i: int| 0 <= i < s.len() ==> is_digit(#[trigger] s[i])
}

/// The number a sequence of decimal digits denotes.
pub open spec fn digits_value(s: Seq<char>) -> int
    decreases s.len(),
{
    if s.len() == 0 {
        0
    } else {
        digits_value(s.drop_last()) * 10 + digit_val(s.last())
    }
}

/// A magnitude token body is an optional leading `+` followed by digits,
/// as `usize::from_str` accepts it.
pub open spec fn magnitude_digits(s: Seq<char>) -> Seq<char> {
    if s.len() >= 1 && s[0] == '+' {
        s.drop_first()
    } else {
        s
    }
}

/// Whether `s` parses as a non-negative magnitude that fits in `usize`.
pub open spec fn parses_to_magnitude(s: Seq<char>) -> bool {
    let d = magnitude_digits(s);
    d.len() >= 1 && all_digits(d) && digits_value(d) <= usize::MAX
}

pub open spec fn magnitude_value(s: Seq<char>) -> int {
    digits_value(magnitude_digits(s))
}

proof fn lemma_digits_value_nonneg(s: Seq<char>)
    requires
        all_digits(s),
    ensures
        digits_value(s) >= 0,
    decreases s.len(),
{
    if s.len() > 0 {
        assert(all_digits(s.drop_last())) by {
            assert(forall|i: int|
                0 <= i < s.len() - 1 ==> #[trigger] s.drop_last()[i] == s[i]);
        }
        lemma_digits_value_nonneg(s.drop_last());
    }
}

/// Extending a digit string on the right can only grow its value.
proof fn lemma_digits_value_prefix_le(s: Seq<char>, i: int)
    requires
        all_digits(s),
        0 <= i <= s.len(),
    ensures
        digits_value(s.subrange(0, i)) <= digits_value(s),
    decreases s.len() - i,
{
    if i == s.len() {
        assert(s.subrange(0, i) =~= s);
    } else {
        lemma_digits_value_prefix_le(s, i + 1);
        let a = s.subrange(0, i);
        let b = s.subrange(0, i + 1);
        assert(b.drop_last() =~= a);
        assert(all_digits(a)) by {
            assert(forall|k: int| 0 <= k < i ==> a[k] == s[k]);
        }
        lemma_digits_value_nonneg(a);
        assert(digits_value(b) == digits_value(a) * 10 + digit_val(s[i]));
    }
}

/// Parses the characters after the direction letter as a move magnitude.
/// Mirrors `str::parse::<usize>` on the token tails this game accepts:
/// an optional `+`, then decimal digits, rejected when the value does
/// not fit in `usize`.
pub fn parse_magnitude(s: &str) -> (r: Option<usize>)
    ensures
        r is Some <==> parses_to_magnitude(s@),
        parses_to_magnitude(s@) ==> 0 <= magnitude_value(s@) <= usize::MAX,
        parses_to_magnitude(s@) ==> r == Some(magnitude_value(s@) as usize),
{
    let len = s.unicode_len();
    let start: usize = if len >= 1 && s.get_char(0) == '+' {
        1
    } else {
        0
    };
    let ghost d = magnitude_digits(s@);
    proof {
        assert(d =~= s@.subrange(start as int, len as int));
    }
    if start >= len {
        return None;
    }
    let mut acc: usize = 0;
    let mut i: usize = start;
    while i < len
        invariant
            start <= i <= len,
            len == s@.len(),
            start + d.len() == len,
            d == magnitude_digits(s@),
            d =~= s@.subrange(start as int, len as int),
            all_digits(d.subrange(0, i - start)),
            acc == digits_value(d.subrange(0, i - start)),
        decreases len - i,
    {
        let c = s.get_char(i);
        let v = c as u32;
        let ghost pre = d.subrange(0, i - start);
        let ghost cur = d.subrange(0, i + 1 - start);
        proof {
            assert(cur.drop_last() =~= pre);
            assert(cur.last() == s@[i as int]);
        }
        if v < 48 || v > 57 {
            assert(!all_digits(d));
            return None;
        }
        let dig = (v - 48) as usize;
        let wide: u128 = acc as u128 * 10 + dig as u128;
        if wide > usize::MAX as u128 {
            proof {
                assert(digits_value(cur) == acc * 10 + dig);
                assert(all_digits(d) ==> digits_value(d) > usize::MAX) by {
                    if all_digits(d) {
                        lemma_digits_value_prefix_le(d, i + 1 - start);
                    }
                }
            }
            return None;
        }
        acc = (wide) as usize;
        proof {
            assert(all_digits(cur));
            assert(acc == digits_value(cur));
        }
        i = i + 1;
    }
    proof {
        assert(d.subrange(0, len - start) =~= d);
    }
    Some(acc)
}

/// The cursor after one command letter: `u d l r` (either case) pick a
/// direction, `y` picks Select, `!` picks Mark, anything else fails.
pub open spec fn head_applied(c: Cursor, ch: char) -> Cursor {
    if ch == 'u' || ch == 'U' {
        Cursor { currently_moving: Moves::Up, ..c }
    } else if ch == 'd' || ch == 'D' {
        Cursor { currently_moving: Moves::Down, ..c }
    } else if ch == 'l' || ch == 'L' {
        Cursor { currently_moving: Moves::Left, ..c }
    } else if ch == 'r' || ch == 'R' {
        Cursor { currently_moving: Moves::Right, ..c }
    } else if ch == 'y' || ch == 'Y' {
        Cursor { action: CursorActions::Select, ..c }
    } else if ch == '!' {
        Cursor { action: CursorActions::Mark, ..c }
    } else {
        Cursor { action: CursorActions::FailedInput, ..c }
    }
}

/// Saturating movement along one axis: never past 0, never past n - 1.
pub open spec fn clamped_add(pos: int, amount: int, n: int) -> int {
    if pos + amount > n - 1 {
        n - 1
    } else {
        pos + amount
    }
}

pub open spec fn clamped_sub(pos: int, amount: int) -> int {
    if amount > pos {
        0
    } else {
        pos - amount
    }
}

/// The cursor after a bounded move of `amount` tiles in its pending
/// direction, saturating at the grid edges.
pub open spec fn cursor_moved(c: Cursor, amount: int, n: int) -> Cursor {
    match c.currently_moving {
        Moves::Down => Cursor {
            position: [clamped_add(c.position[0] as int, amount, n) as usize, c.position[1]],
            ..c
        },
        Moves::Up => Cursor {
            position: [clamped_sub(c.position[0] as int, amount) as usize, c.position[1]],
            ..c
        },
        Moves::Right => Cursor {
            position: [c.position[0], clamped_add(c.position[1] as int, amount, n) as usize],
            ..c
        },
        Moves::Left => Cursor {
            position: [c.position[0], clamped_sub(c.position[1] as int, amount) as usize],
            ..c
        },
        Moves::Stay => c,
    }
}

/// The cursor after one whole token: the command letter, then, for a
/// directional token, the magnitude and the bounded move. A token whose
/// tail does not parse fails the input.
pub open spec fn token_applied(c: Cursor, t: Seq<char>, n: int) -> Cursor {
    let c1 = head_applied(c, t[0]);
    if c1.action == CursorActions::Select || c1.action == CursorActions::Mark || c1.action
        == CursorActions::FailedInput {
        c1
    } else if parses_to_magnitude(t.drop_first()) {
        cursor_moved(c1, magnitude_value(t.drop_first()), n)
    } else {
        Cursor { action: CursorActions::FailedInput, ..c1 }
    }
}

/// The cursor after a whole input line: tokens are applied from left to
/// right until one fails, which stops the processing.
pub open spec fn tokens_applied(c: Cursor, toks: Seq<Seq<char>>, n: int) -> Cursor
    decreases toks.len(),
{
    if toks.len() == 0 {
        c
    } else {
        let c1 = token_applied(c, toks[0], n);
        if c1.action == CursorActions::FailedInput {
            c1
        } else {
            tokens_applied(c1, toks.drop_first(), n)
        }
    }
}

pub open spec fn cursor_in_bounds(c: Cursor, n: int) -> bool {
    c.position[0] < n && c.position[1] < n
}

impl Cursor {
    /// Resets direction and action for the next turn; the position is kept.
    pub fn reset_cursor_non_position(&mut self)
        ensures
            final(self).currently_moving == Moves::Stay,
            final(self).action == CursorActions::Move,
            final(self).position == old(self).position,
    {
        self.currently_moving = Moves::Stay;
        self.action = CursorActions::Move;
    }

    /// Moves the cursor `move_amount` tiles in the pending direction,
    /// saturating at the grid edges: it never wraps and never errs.
    pub fn move_cursor(&mut self, move_amount: usize, grid_size: usize)
        requires
            grid_size >= 1,
            cursor_in_bounds(*old(self), grid_size as int),
        ensures
            *final(self) == cursor_moved(*old(self), move_amount as int, grid_size as int),
            cursor_in_bounds(*final(self), grid_size as int),
            old(self).currently_moving == Moves::Up && old(self).position[0] == 0
                ==> final(self).position[0] == 0,
            old(self).currently_moving == Moves::Left && old(self).position[1] == 0
                ==> final(self).position[1] == 0,
            old(self).currently_moving == Moves::Down && move_amount >= grid_size
                ==> final(self).position[0] == grid_size - 1,
            old(self).currently_moving == Moves::Right && move_amount >= grid_size
                ==> final(self).position[1] == grid_size - 1,
    {
        match self.currently_moving {
            Moves::Down => {
                if move_amount > grid_size - 1 - self.position[0] {
                    self.position = [grid_size - 1, self.position[1]];
                } else {
                    self.position = [self.position[0] + move_amount, self.position[1]];
                }
            },
            Moves::Up => {
                if move_amount > self.position[0] {
                    self.position = [0, self.position[1]];
                } else {
                    self.position = [self.position[0] - move_amount, self.position[1]];
                }
            },
            Moves::Right => {
                if move_amount > grid_size - 1 - self.position[1] {
                    self.position = [self.position[0], grid_size - 1];
                } else {
                    self.position = [self.position[0], self.position[1] + move_amount];
                }
            },
            Moves::Left => {
                if move_amount > self.position[1] {
                    self.position = [self.position[0], 0];
                } else {
                    self.position = [self.position[0], self.position[1] - move_amount];
                }
            },
            _ => (),
        }
        proof {
            assert(*self =~= cursor_moved(*old(self), move_amount as int, grid_size as int));
        }
    }

    /// Applies the leading character of one token to the cursor.
    pub fn match_cursor_input(&mut self, user_input: &str)
        requires
            user_input@.len() >= 1,
        ensures
            *final(self) == head_applied(*old(self), user_input@[0]),
    {
        let c = user_input.get_char(0);
        match c {
            'u' | 'U' => self.currently_moving = Moves::Up,
            'd' | 'D' => self.currently_moving = Moves::Down,
            'l' | 'L' => self.currently_moving = Moves::Left,
            'r' | 'R' => self.currently_moving = Moves::Right,
            'y' | 'Y' => self.action = CursorActions::Select,
            '!' => self.action = CursorActions::Mark,
            _ => self.action = CursorActions::FailedInput,
        }
    }

    /// Applies a whole line of whitespace-split tokens, left to right,
    /// stopping at the first failed token.
    pub fn process_tokens(&mut self, tokens: &Vec<String>, grid_size: usize)
        requires
            grid_size >= 1,
            cursor_in_bounds(*old(self), grid_size as int),
            forall|i: int| 0 <= i < tokens@.len() ==> (#[trigger] tokens@[i])@.len() >= 1,
        ensures
            *final(self) == tokens_applied(*old(self), tokens.deep_view(), grid_size as int),
            cursor_in_bounds(*final(self), grid_size as int),
    {
        let ghost all = tokens.deep_view();
        let ghost c0 = *self;
        proof {
            assert(all.subrange(0, all.len() as int) =~= all);
        }
        let mut i: usize = 0;
        while i < tokens.len()
            invariant_except_break
                i <= tokens@.len(),
                grid_size >= 1,
                all == tokens.deep_view(),
                forall|k: int| 0 <= k < tokens@.len() ==> (#[trigger] tokens@[k])@.len() >= 1,
                cursor_in_bounds(*self, grid_size as int),
                tokens_applied(c0, all, grid_size as int) == tokens_applied(
                    *self,
                    all.subrange(i as int, all.len() as int),
                    grid_size as int,
                ),
            ensures
                *self == tokens_applied(c0, all, grid_size as int),
                cursor_in_bounds(*self, grid_size as int),
            decreases tokens@.len() - i,
        {
            let ghost rest = all.subrange(i as int, all.len() as int);
            let ghost pre = *self;
            let t: &String = &tokens[i];
            proof {
                assert(rest[0] == t@);
                assert(rest.drop_first() =~= all.subrange(i + 1, all.len() as int));
            }
            self.match_cursor_input(t.as_str());
            if self.action == CursorActions::FailedInput {
                proof {
                    assert(token_applied(pre, t@, grid_size as int) == *self);
                }
                break;
            } else if self.action == CursorActions::Select || self.action
                == CursorActions::Mark {
                proof {
                    assert(token_applied(pre, t@, grid_size as int) == *self);
                }
                i = i + 1;
            } else {
                let len = t.as_str().unicode_len();
                let rest_str = t.as_str().substring_char(1, len);
                proof {
                    assert(rest_str@ =~= t@.drop_first());
                }
                match parse_magnitude(rest_str) {
                    Some(m) => {
                        self.move_cursor(m, grid_size);
                        proof {
                            assert(token_applied(pre, t@, grid_size as int) == *self);
                        }
                        i = i + 1;
                    },
                    None => {
                        self.action = CursorActions::FailedInput;
                        proof {
                            assert(token_applied(pre, t@, grid_size as int) == *self);
                        }
                        break;
                    },
                }
            }
        }
    }
}

} // verus!
