use vstd::prelude::*;
use vstd::string::StrSliceExecFns;

use crate::board::Board;
use crate::position::{spot, Position};

verus! {

/// A person who types moves: two numbers on a line, the row and the
/// column, counted from one.
#[derive(Clone)]
pub struct Human {
    name: String,
}

/// The characters that separate the numbers: the blank, the tab, and the
/// characters that end or break a line.
pub open spec fn is_blank(c: char) -> bool {
    c == ' ' || c == '\t' || c == '\n' || c == '\r' || c == '\x0b' || c == '\x0c'
}

/// The first place from `i` on that holds no blank.
pub open spec fn skip_blanks(s: Seq<char>, i: int) -> int
    decreases s.len() - i,
{
    if 0 <= i < s.len() && is_blank(s[i]) {
        skip_blanks(s, i + 1)
    } else {
        i
    }
}

/// The first place from `i` on that holds a blank, or the end.
pub open spec fn word_end(s: Seq<char>, i: int) -> int
    decreases s.len() - i,
{
    if 0 <= i < s.len() && !is_blank(s[i]) {
        word_end(s, i + 1)
    } else {
        i
    }
}

/// The value of a decimal digit; nothing for another character.
pub open spec fn digit_value(c: char) -> Option<nat> {
    if c == '0' {
        Some(0)
    } else if c == '1' {
        Some(1)
    } else if c == '2' {
        Some(2)
    } else if c == '3' {
        Some(3)
    } else if c == '4' {
        Some(4)
    } else if c == '5' {
        Some(5)
    } else if c == '6' {
        Some(6)
    } else if c == '7' {
        Some(7)
    } else if c == '8' {
        Some(8)
    } else if c == '9' {
        Some(9)
    } else {
        None
    }
}

/// The value of a run of decimal digits; nothing for an empty run and
/// for a run that holds another character.
pub open spec fn digits_value(t: Seq<char>) -> Option<nat>
    decreases t.len(),
{
    if t.len() == 0 {
        None
    } else if t.len() == 1 {
        digit_value(t[0])
    } else {
        match (digits_value(t.drop_last()), digit_value(t.last())) {
            (Some(a), Some(d)) => Some(a * 10 + d),
            _ => None,
        }
    }
}

/// The number a word stands for: a run of decimal digits, with or
/// without a plus sign in front, whose value fits the machine's word.
pub open spec fn number(t: Seq<char>) -> Option<usize> {
    let body = if t.len() > 0 && t[0] == '+' {
        t.skip(1)
    } else {
        t
    };
    match digits_value(body) {
        Some(v) => if v <= usize::MAX {
            Some(v as usize)
        } else {
            None
        },
        None => None,
    }
}

/// The two numbers of a line: the line must hold exactly two words, and
/// both must be numbers.
pub open spec fn coord(s: Seq<char>) -> Option<(usize, usize)> {
    let a0 = skip_blanks(s, 0);
    let a1 = word_end(s, a0);
    let b0 = skip_blanks(s, a1);
    let b1 = word_end(s, b0);
    let c0 = skip_blanks(s, b1);
    if a0 < a1 && b0 < b1 && c0 == s.len() {
        match (number(s.subrange(a0, a1)), number(s.subrange(b0, b1))) {
            (Some(x), Some(y)) => Some((x, y)),
            _ => None,
        }
    } else {
        None
    }
}

/// The move a line asks for on a board: its two numbers less one each,
/// where both are at least one and the cell they name is free.
pub open spec fn requested(s: Seq<char>, pos: Position) -> Option<(usize, usize)> {
    match coord(s) {
        Some((x, y)) => if x > 0 && y > 0 && pos.is_valid((x - 1, y - 1)) {
            Some(((x - 1) as usize, (y - 1) as usize))
        } else {
            None
        },
        None => None,
    }
}

/// The value of a run of digits is at least the value of each run it
/// begins with, and each such run is a run of digits.
pub proof fn lemma_digits_prefix(t: Seq<char>, k: int)
    requires
        0 < k <= t.len(),
        digits_value(t) is Some,
    ensures
        digits_value(t.take(k)) is Some,
        digits_value(t.take(k)).unwrap() <= digits_value(t).unwrap(),
    decreases t.len(),
{
    if k == t.len() {
        assert(t.take(k) =~= t);
    } else {
        assert(t.len() > 1);
        lemma_digits_prefix(t.drop_last(), k);
        assert(t.drop_last().take(k) =~= t.take(k));
    }
}

fn digit_of(c: char) -> (d: Option<usize>)
    ensures
        match d {
            Some(v) => digit_value(c) == Some(v as nat) && v < 10,
            None => digit_value(c) is None,
        },
{
    if c == '0' {
        Some(0)
    } else if c == '1' {
        Some(1)
    } else if c == '2' {
        Some(2)
    } else if c == '3' {
        Some(3)
    } else if c == '4' {
        Some(4)
    } else if c == '5' {
        Some(5)
    } else if c == '6' {
        Some(6)
    } else if c == '7' {
        Some(7)
    } else if c == '8' {
        Some(8)
    } else if c == '9' {
        Some(9)
    } else {
        None
    }
}

fn blank(c: char) -> (r: bool)
    ensures
        r == is_blank(c),
{
    c == ' ' || c == '\t' || c == '\n' || c == '\r' || c == '\x0b' || c == '\x0c'
}

fn characters(input: &str) -> (chars: Vec<char>)
    ensures
        chars@ == input@,
{
    let n = input.unicode_len();
    let mut chars: Vec<char> = Vec::new();
    let mut i: usize = 0;
    while i < n
        invariant
            0 <= i <= n,
            n == input@.len(),
            chars@ == input@.take(i as int),
        decreases n - i,
    {
        chars.push(input.get_char(i));
        i += 1;
        assert(chars@ =~= input@.take(i as int));
    }
    assert(input@.take(n as int) =~= input@);
    chars
}

fn after_blanks(chars: &Vec<char>, from: usize) -> (to: usize)
    requires
        from <= chars.len(),
    ensures
        to == skip_blanks(chars@, from as int),
        from <= to <= chars.len(),
{
    let mut i = from;
    while i < chars.len() && blank(chars[i])
        invariant
            from <= i <= chars.len(),
            skip_blanks(chars@, from as int) == skip_blanks(chars@, i as int),
        decreases chars.len() - i,
    {
        i += 1;
    }
    i
}

fn after_word(chars: &Vec<char>, from: usize) -> (to: usize)
    requires
        from <= chars.len(),
    ensures
        to == word_end(chars@, from as int),
        from <= to <= chars.len(),
{
    let mut i = from;
    while i < chars.len() && !blank(chars[i])
        invariant
            from <= i <= chars.len(),
            word_end(chars@, from as int) == word_end(chars@, i as int),
        decreases chars.len() - i,
    {
        i += 1;
    }
    i
}

fn number_in(chars: &Vec<char>, from: usize, to: usize) -> (r: Option<usize>)
    requires
        from <= to <= chars.len(),
    ensures
        r == number(chars@.subrange(from as int, to as int)),
{
    let ghost word = chars@.subrange(from as int, to as int);
    let start = if from < to && chars[from] == '+' {
        from + 1
    } else {
        from
    };
    let ghost body = chars@.subrange(start as int, to as int);
    assert(body =~= if word.len() > 0 && word[0] == '+' {
        word.skip(1)
    } else {
        word
    });
    if start == to {
        return None;
    }
    let mut acc: usize = 0;
    let mut i: usize = start;
    while i < to
        invariant
            start <= i <= to <= chars.len(),
            start < to,
            body == chars@.subrange(start as int, to as int),
            number(chars@.subrange(from as int, to as int)) == (match digits_value(body) {
                Some(v) => if v <= usize::MAX {
                    Some(v as usize)
                } else {
                    None
                },
                None => None,
            }),
            i > start ==> digits_value(body.take(i - start)) == Some(acc as nat),
            i == start ==> acc == 0,
        decreases to - i,
    {
        let ghost k = i - start;
        proof {
            let p = body.take(k + 1);
            assert(p.last() == chars@[i as int]);
            assert(p.drop_last() =~= body.take(k));
            assert(p.len() == k + 1);
            if k == 0 {
                assert(p[0] == chars@[i as int]);
                assert(digits_value(p) == digit_value(chars@[i as int]));
            } else {
                assert(digits_value(p) == match (
                    digits_value(body.take(k)),
                    digit_value(chars@[i as int]),
                ) {
                    (Some(a), Some(d)) => Some(a * 10 + d),
                    _ => None,
                });
            }
        }
        match digit_of(chars[i]) {
            None => {
                proof {
                    if digits_value(body) is Some {
                        lemma_digits_prefix(body, k + 1);
                    }
                }
                return None;
            },
            Some(d) => {
                if acc > (usize::MAX - d) / 10 {
                    proof {
                        if digits_value(body) is Some {
                            lemma_digits_prefix(body, k + 1);
                        }
                    }
                    return None;
                }
                acc = acc * 10 + d;
            },
        }
        i += 1;
    }
    proof {
        assert(body.take(to - start) =~= body);
    }
    Some(acc)
}

impl Human {
    pub fn new(name: String) -> (h: Human)
        ensures
            h.called() == name@,
    {
        Human { name }
    }

    /// The person's name.
    pub closed spec fn called(&self) -> Seq<char> {
        self.name@
    }

    /// The person's name.
    pub fn name(&self) -> (n: &String)
        ensures
            n@ == self.called(),
    {
        &self.name
    }

    /// The two numbers of a line of text, if the line holds two numbers
    /// and nothing else.
    pub fn read_coord(input: &str) -> (r: Option<(usize, usize)>)
        ensures
            r == coord(input@),
    {
        let chars = characters(input);
        let a0 = after_blanks(&chars, 0);
        let a1 = after_word(&chars, a0);
        let b0 = after_blanks(&chars, a1);
        let b1 = after_word(&chars, b0);
        let c0 = after_blanks(&chars, b1);
        if a0 < a1 && b0 < b1 && c0 == chars.len() {
            match (number_in(&chars, a0, a1), number_in(&chars, b0, b1)) {
                (Some(x), Some(y)) => Some((x, y)),
                _ => None,
            }
        } else {
            None
        }
    }

    /// The move that a line of text asks for, or nothing where the line
    /// does not name a free cell of the board: then the person is to be
    /// asked again.
    pub fn accept<const SIZE: usize>(input: &str, board: &Board<SIZE>) -> (r: Option<
        (usize, usize),
    >)
        ensures
            r == requested(input@, board@),
            r is Some ==> board@.is_valid(spot(r.unwrap())),
    {
        match Self::read_coord(input) {
            Some((x, y)) => {
                if x > 0 && y > 0 && board.is_valid(x - 1, y - 1) {
                    Some((x - 1, y - 1))
                } else {
                    None
                }
            },
            None => None,
        }
    }
}

} // verus!
