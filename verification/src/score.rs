use core::cmp::Ordering;
use vstd::prelude::*;
use vstd::std_specs::cmp::PartialOrdSpecImpl;
use vstd::std_specs::ops::AddSpecImpl;

verus! {

/// The value of a position, seen from outside the game: high is good for
/// White, low is good for Black.
///
/// `Advantage` counts stones. `WhiteMateIn(n)` and `BlackMateIn(n)` say
/// that the side wins in `n` plies whatever the other side does;
/// `WhiteCheckMate` and `BlackCheckMate` say that it has won already.
/// `Undefined` is the score of nothing: it is neutral when scores are
/// combined and weighs as much as a level advantage.
#[derive(Debug, Clone, Copy, PartialEq, Eq, Structural)]
pub enum Score {
    Undefined,
    Advantage(i64),
    BlackMateIn(usize),
    WhiteMateIn(usize),
    BlackCheckMate,
    WhiteCheckMate,
}

impl Score {
    /// The band a score lies in, from Black's win at -2 to White's at 2.
    /// Every score of a lower band is below every score of a higher one.
    pub open spec fn band(self) -> int {
        match self {
            Score::BlackCheckMate => -2,
            Score::BlackMateIn(_) => -1,
            Score::Undefined => 0,
            Score::Advantage(_) => 0,
            Score::WhiteMateIn(_) => 1,
            Score::WhiteCheckMate => 2,
        }
    }

    /// The place of a score inside its band: the advantage itself, and for
    /// a forced win the number of plies, counted so that a quicker win lies
    /// nearer to the side's end of the scale.
    pub open spec fn level(self) -> int {
        match self {
            Score::Advantage(x) => x as int,
            Score::BlackMateIn(n) => n as int,
            Score::WhiteMateIn(n) => -(n as int),
            _ => 0,
        }
    }

    /// Strictly below: a lower band, or the same band and a lower level.
    pub open spec fn below(self, other: Score) -> bool {
        self.band() < other.band() || (self.band() == other.band() && self.level() < other.level())
    }

    /// Neither is below the other. Two scores weigh the same exactly when
    /// they are equal, or one is `Undefined` and the other a level advantage.
    pub open spec fn level_with(self, other: Score) -> bool {
        self.band() == other.band() && self.level() == other.level()
    }

    pub open spec fn at_most(self, other: Score) -> bool {
        self.below(other) || self.level_with(other)
    }

    pub open spec fn compare(self, other: Score) -> Ordering {
        if self.below(other) {
            Ordering::Less
        } else if self.level_with(other) {
            Ordering::Equal
        } else {
            Ordering::Greater
        }
    }

    /// The number of plies to the forced win that a score announces; zero
    /// where it announces none.
    pub open spec fn plies(self) -> nat {
        match self {
            Score::BlackMateIn(n) => n as nat,
            Score::WhiteMateIn(n) => n as nat,
            _ => 0,
        }
    }

    /// A forced win is at least one ply away: a win in no plies is written
    /// as a won game.
    pub open spec fn plies_counted(self) -> bool {
        self != Score::BlackMateIn(0) && self != Score::WhiteMateIn(0)
    }

    /// A score that a single position can have: no count of plies in it.
    pub open spec fn is_static(self) -> bool {
        !(self is BlackMateIn) && !(self is WhiteMateIn)
    }

    /// The score one ply further from the leaves: a win becomes a win in
    /// one, a win in `k` a win in `k + 1`. The rest is unchanged.
    pub open spec fn aged(self) -> Score {
        match self {
            Score::BlackMateIn(n) => Score::BlackMateIn((n + 1) as usize),
            Score::WhiteMateIn(n) => Score::WhiteMateIn((n + 1) as usize),
            Score::BlackCheckMate => Score::BlackMateIn(1),
            Score::WhiteCheckMate => Score::WhiteMateIn(1),
            s => s,
        }
    }

    /// The score one ply nearer to the leaves: the inverse of `aged`.
    pub open spec fn unaged(self) -> Score {
        match self {
            Score::BlackMateIn(n) => if n == 1 {
                Score::BlackCheckMate
            } else {
                Score::BlackMateIn((n - 1) as usize)
            },
            Score::WhiteMateIn(n) => if n == 1 {
                Score::WhiteCheckMate
            } else {
                Score::WhiteMateIn((n - 1) as usize)
            },
            s => s,
        }
    }

    /// Whether `aged` stays inside the type: the count of plies has room
    /// for one more.
    pub open spec fn can_age(self) -> bool {
        self.plies() < usize::MAX
    }

    /// Two scores combined into one.
    ///
    /// Advantages add up. A won game outweighs everything, White's before
    /// Black's. Of two forced wins the quicker one stays, and between the
    /// two sides the second operand's where both are as quick. A forced win
    /// outweighs an advantage, and `Undefined` changes nothing.
    pub open spec fn combined(self, other: Score) -> Score {
        match (self, other) {
            (Score::Advantage(a), Score::Advantage(b)) => Score::Advantage((a + b) as i64),
            (Score::WhiteCheckMate, _) => Score::WhiteCheckMate,
            (_, Score::WhiteCheckMate) => Score::WhiteCheckMate,
            (Score::BlackCheckMate, _) => Score::BlackCheckMate,
            (_, Score::BlackCheckMate) => Score::BlackCheckMate,
            (Score::BlackMateIn(a), Score::BlackMateIn(b)) => Score::BlackMateIn(
                if a <= b {
                    a
                } else {
                    b
                },
            ),
            (Score::WhiteMateIn(a), Score::WhiteMateIn(b)) => Score::WhiteMateIn(
                if a <= b {
                    a
                } else {
                    b
                },
            ),
            (Score::BlackMateIn(a), Score::WhiteMateIn(b)) => if a < b {
                Score::BlackMateIn(a)
            } else {
                Score::WhiteMateIn(b)
            },
            (Score::WhiteMateIn(a), Score::BlackMateIn(b)) => if a < b {
                Score::WhiteMateIn(a)
            } else {
                Score::BlackMateIn(b)
            },
            (Score::BlackMateIn(n), _) => Score::BlackMateIn(n),
            (_, Score::BlackMateIn(n)) => Score::BlackMateIn(n),
            (Score::WhiteMateIn(n), _) => Score::WhiteMateIn(n),
            (_, Score::WhiteMateIn(n)) => Score::WhiteMateIn(n),
            (Score::Undefined, s) => s,
            (s, Score::Undefined) => s,
        }
    }

    /// Steps one ply nearer to the leaves and returns the new score. A won
    /// game has no nearer score: it stays, and nothing is returned.
    pub fn next(&mut self) -> (r: Option<Score>)
        requires
            old(self).plies_counted(),
        ensures
            *final(self) == old(self).unaged(),
            r == if *old(self) == Score::WhiteCheckMate || *old(self) == Score::BlackCheckMate {
                None
            } else {
                Some(old(self).unaged())
            },
    {
        if *self == Score::WhiteCheckMate || *self == Score::BlackCheckMate {
            return None;
        }
        *self = match *self {
            Score::BlackMateIn(n) => if n == 1 {
                Score::BlackCheckMate
            } else {
                Score::BlackMateIn(n - 1)
            },
            Score::WhiteMateIn(n) => if n == 1 {
                Score::WhiteCheckMate
            } else {
                Score::WhiteMateIn(n - 1)
            },
            s => s,
        };
        Some(*self)
    }

    /// Steps one ply further from the leaves and returns the new score.
    pub fn next_back(&mut self) -> (r: Option<Score>)
        requires
            old(self).can_age(),
        ensures
            *final(self) == old(self).aged(),
            r == Some(old(self).aged()),
    {
        *self = match *self {
            Score::BlackMateIn(n) => Score::BlackMateIn(n + 1),
            Score::WhiteMateIn(n) => Score::WhiteMateIn(n + 1),
            Score::BlackCheckMate => Score::BlackMateIn(1),
            Score::WhiteCheckMate => Score::WhiteMateIn(1),
            s => s,
        };
        Some(*self)
    }

    /// The first `count` scores met when stepping away from the leaves.
    pub fn rev_take(self, count: usize) -> (r: Vec<Score>)
        requires
            self.plies() + count <= usize::MAX,
        ensures
            r.len() == count,
            forall|i: int| 0 <= i < count ==> #[trigger] r[i] == aged_by(self, (i + 1) as nat),
    {
        let mut out: Vec<Score> = Vec::new();
        let mut cur = self;
        let mut i: usize = 0;
        while i < count
            invariant
                0 <= i <= count,
                self.plies() + count <= usize::MAX,
                out.len() == i,
                cur == aged_by(self, i as nat),
                forall|j: int| 0 <= j < i ==> #[trigger] out[j] == aged_by(self, (j + 1) as nat),
            decreases count - i,
        {
            proof {
                lemma_aged_by_plies(self, i as nat);
            }
            cur.next_back();
            out.push(cur);
            i += 1;
        }
        out
    }
}

/// A score aged `k` times.
pub open spec fn aged_by(s: Score, k: nat) -> Score
    decreases k,
{
    if k == 0 {
        s
    } else {
        aged_by(s, (k - 1) as nat).aged()
    }
}

/// Aging `k` times adds at most `k` plies.
pub proof fn lemma_aged_by_plies(s: Score, k: nat)
    requires
        s.plies() + k <= usize::MAX,
    ensures
        aged_by(s, k).plies() <= s.plies() + k,
    decreases k,
{
    if k > 0 {
        lemma_aged_by_plies(s, (k - 1) as nat);
    }
}

impl PartialOrd for Score {
    /// Compares by band, then by level.
    fn partial_cmp(&self, other: &Score) -> (o: Option<Ordering>) {
        let a = band_of(*self);
        let b = band_of(*other);
        if a < b {
            Some(Ordering::Less)
        } else if a > b {
            Some(Ordering::Greater)
        } else {
            match (*self, *other) {
                (Score::BlackMateIn(m), Score::BlackMateIn(n)) => Some(order_of(m, n)),
                (Score::WhiteMateIn(m), Score::WhiteMateIn(n)) => Some(order_of(n, m)),
                (Score::Advantage(x), Score::Advantage(y)) => Some(order_of_signed(x, y)),
                (Score::Advantage(x), Score::Undefined) => Some(order_of_signed(x, 0)),
                (Score::Undefined, Score::Advantage(y)) => Some(order_of_signed(0, y)),
                _ => Some(Ordering::Equal),
            }
        }
    }
}

impl PartialOrdSpecImpl for Score {
    open spec fn obeys_partial_cmp_spec() -> bool {
        true
    }

    open spec fn partial_cmp_spec(&self, other: &Score) -> Option<Ordering> {
        Some(self.compare(*other))
    }
}

fn band_of(s: Score) -> (b: i8)
    ensures
        b == s.band(),
{
    match s {
        Score::BlackCheckMate => -2,
        Score::BlackMateIn(_) => -1,
        Score::Undefined => 0,
        Score::Advantage(_) => 0,
        Score::WhiteMateIn(_) => 1,
        Score::WhiteCheckMate => 2,
    }
}

fn order_of(a: usize, b: usize) -> (o: Ordering)
    ensures
        o == if a < b {
            Ordering::Less
        } else if a == b {
            Ordering::Equal
        } else {
            Ordering::Greater
        },
{
    if a < b {
        Ordering::Less
    } else if a == b {
        Ordering::Equal
    } else {
        Ordering::Greater
    }
}

fn order_of_signed(a: i64, b: i64) -> (o: Ordering)
    ensures
        o == if a < b {
            Ordering::Less
        } else if a == b {
            Ordering::Equal
        } else {
            Ordering::Greater
        },
{
    if a < b {
        Ordering::Less
    } else if a == b {
        Ordering::Equal
    } else {
        Ordering::Greater
    }
}

impl core::ops::Add for Score {
    type Output = Score;

    /// Combines two scores as `combined` says.
    fn add(self, other: Score) -> (r: Score) {
        match (self, other) {
            (Score::Advantage(a), Score::Advantage(b)) => Score::Advantage(a + b),
            (Score::WhiteCheckMate, _) => Score::WhiteCheckMate,
            (_, Score::WhiteCheckMate) => Score::WhiteCheckMate,
            (Score::BlackCheckMate, _) => Score::BlackCheckMate,
            (_, Score::BlackCheckMate) => Score::BlackCheckMate,
            (Score::BlackMateIn(a), Score::BlackMateIn(b)) => Score::BlackMateIn(
                if a <= b {
                    a
                } else {
                    b
                },
            ),
            (Score::WhiteMateIn(a), Score::WhiteMateIn(b)) => Score::WhiteMateIn(
                if a <= b {
                    a
                } else {
                    b
                },
            ),
            (Score::BlackMateIn(a), Score::WhiteMateIn(b)) => if a < b {
                Score::BlackMateIn(a)
            } else {
                Score::WhiteMateIn(b)
            },
            (Score::WhiteMateIn(a), Score::BlackMateIn(b)) => if a < b {
                Score::WhiteMateIn(a)
            } else {
                Score::BlackMateIn(b)
            },
            (Score::BlackMateIn(n), _) => Score::BlackMateIn(n),
            (_, Score::BlackMateIn(n)) => Score::BlackMateIn(n),
            (Score::WhiteMateIn(n), _) => Score::WhiteMateIn(n),
            (_, Score::WhiteMateIn(n)) => Score::WhiteMateIn(n),
            (Score::Undefined, s) => s,
            (s, Score::Undefined) => s,
        }
    }
}

impl AddSpecImpl for Score {
    open spec fn obeys_add_spec() -> bool {
        true
    }

    /// Two advantages can be added when their sum fits the type.
    open spec fn add_req(self, other: Score) -> bool {
        match (self, other) {
            (Score::Advantage(a), Score::Advantage(b)) => i64::MIN <= a + b <= i64::MAX,
            _ => true,
        }
    }

    open spec fn add_spec(self, other: Score) -> Score {
        self.combined(other)
    }
}

/// Of two scores exactly one holds: the first is below the second, they
/// are level, or the second is below the first.
pub proof fn lemma_order_total(a: Score, b: Score)
    ensures
        a.below(b) || a.level_with(b) || b.below(a),
        !(a.below(b) && a.level_with(b)),
        !(a.below(b) && b.below(a)),
        !(b.below(a) && a.level_with(b)),
        !a.below(a),
{
}

/// The order is transitive, strictly and with ties.
pub proof fn lemma_order_transitive(a: Score, b: Score, c: Score)
    ensures
        a.below(b) && b.below(c) ==> a.below(c),
        a.at_most(b) && b.at_most(c) ==> a.at_most(c),
        a.below(b) && b.at_most(c) ==> a.below(c),
        a.at_most(b) && b.below(c) ==> a.below(c),
        a.level_with(b) && b.level_with(c) ==> a.level_with(c),
{
}

/// Two different scores are level only where one is `Undefined` and the
/// other a level advantage: on all other scores the order is strict.
pub proof fn lemma_level_scores(a: Score, b: Score)
    ensures
        a.level_with(b) <==> (a == b || (a == Score::Undefined && b == Score::Advantage(0)) || (a
            == Score::Advantage(0) && b == Score::Undefined)),
{
}

/// The scale from Black's win to White's: a won game lies beyond every
/// forced win of the same side, a forced win beyond every advantage, a
/// quicker forced win beyond a slower one, and a larger advantage above
/// a smaller one.
pub proof fn lemma_scale(x: i64, y: i64, m: usize, n: usize)
    ensures
        Score::BlackCheckMate.below(Score::BlackMateIn(m)),
        Score::BlackMateIn(m).below(Score::Advantage(x)),
        Score::BlackMateIn(m).below(Score::Undefined),
        Score::Advantage(x).below(Score::WhiteMateIn(n)),
        Score::Undefined.below(Score::WhiteMateIn(n)),
        Score::WhiteMateIn(n).below(Score::WhiteCheckMate),
        x < y <==> Score::Advantage(x).below(Score::Advantage(y)),
        m < n <==> Score::BlackMateIn(m).below(Score::BlackMateIn(n)),
        m < n <==> Score::WhiteMateIn(n).below(Score::WhiteMateIn(m)),
{
}

/// `Undefined` is neutral on both sides of a combination.
pub proof fn lemma_undefined_neutral(s: Score)
    ensures
        s.combined(Score::Undefined) == s,
        Score::Undefined.combined(s) == s,
{
}

/// Two advantages combine to their sum.
pub proof fn lemma_advantages_add(x: i64, y: i64)
    requires
        i64::MIN <= x + y <= i64::MAX,
    ensures
        Score::Advantage(x).combined(Score::Advantage(y)) == Score::Advantage((x + y) as i64),
{
}

/// Aging turns a won game into a win in one ply and adds a ply to a
/// forced win; stepping back undoes it.
pub proof fn lemma_aging(s: Score, k: usize)
    requires
        s.can_age(),
        k < usize::MAX,
    ensures
        Score::BlackCheckMate.aged() == Score::BlackMateIn(1),
        Score::WhiteCheckMate.aged() == Score::WhiteMateIn(1),
        Score::BlackMateIn(k).aged() == Score::BlackMateIn((k + 1) as usize),
        Score::WhiteMateIn(k).aged() == Score::WhiteMateIn((k + 1) as usize),
        s.plies_counted() ==> s.aged().unaged() == s,
        s.aged().plies_counted(),
        s.aged().plies() <= s.plies() + 1,
        s.is_static() ==> s.aged().plies() <= 1,
{
}

/// Aging keeps the order: of two scores the lower stays the lower, and
/// level scores stay level.
pub proof fn lemma_aging_monotone(a: Score, b: Score)
    requires
        a.can_age(),
        b.can_age(),
    ensures
        a.below(b) && a.plies_counted() && b.plies_counted() ==> a.aged().below(b.aged()),
        a.level_with(b) ==> a.aged().level_with(b.aged()),
        a.at_most(b) ==> a.aged().at_most(b.aged()),
{
}

} // verus!
