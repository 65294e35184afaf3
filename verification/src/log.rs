use vstd::prelude::*;

verus! {

/// What a game or a search may report while it runs.
#[derive(PartialEq, Eq, Hash, Clone, Copy, Debug, Structural)]
pub enum LogFlag {
    SearchDepth,
    Score,
    Moves,
    Position,
    GameResult,
    MatchResult,
}

/// A set of flags: the things that are to be reported.
#[derive(Clone, Copy, Debug)]
pub struct LogLevel {
    search_depth: bool,
    score: bool,
    moves: bool,
    position: bool,
    game_result: bool,
    match_result: bool,
}

impl View for LogLevel {
    type V = Set<LogFlag>;

    closed spec fn view(&self) -> Set<LogFlag> {
        Set::new(
            |flag: LogFlag|
                match flag {
                    LogFlag::SearchDepth => self.search_depth,
                    LogFlag::Score => self.score,
                    LogFlag::Moves => self.moves,
                    LogFlag::Position => self.position,
                    LogFlag::GameResult => self.game_result,
                    LogFlag::MatchResult => self.match_result,
                },
        )
    }
}

impl LogLevel {
    /// No flag is set.
    pub fn new() -> (l: LogLevel)
        ensures
            l@ == Set::<LogFlag>::empty(),
    {
        let l = LogLevel {
            search_depth: false,
            score: false,
            moves: false,
            position: false,
            game_result: false,
            match_result: false,
        };
        assert(l@ =~= Set::<LogFlag>::empty());
        l
    }

    fn put(&mut self, flag: LogFlag, on: bool)
        ensures
            final(self)@ == if on {
                old(self)@.insert(flag)
            } else {
                old(self)@.remove(flag)
            },
    {
        match flag {
            LogFlag::SearchDepth => {
                self.search_depth = on;
            },
            LogFlag::Score => {
                self.score = on;
            },
            LogFlag::Moves => {
                self.moves = on;
            },
            LogFlag::Position => {
                self.position = on;
            },
            LogFlag::GameResult => {
                self.game_result = on;
            },
            LogFlag::MatchResult => {
                self.match_result = on;
            },
        }
        assert(self@ =~= if on {
            old(self)@.insert(flag)
        } else {
            old(self)@.remove(flag)
        });
    }

    /// Sets a flag, and hands the set back for the next change.
    pub fn add(&mut self, flag: LogFlag) -> (r: &mut Self)
        ensures
            r@ == old(self)@.insert(flag),
            *final(self) == *final(r),
    {
        self.put(flag, true);
        self
    }

    /// Clears a flag, and hands the set back for the next change.
    pub fn remove(&mut self, flag: LogFlag) -> (r: &mut Self)
        ensures
            r@ == old(self)@.remove(flag),
            *final(self) == *final(r),
    {
        self.put(flag, false);
        self
    }

    /// Whether a flag is set.
    pub fn is(&self, flag: LogFlag) -> (r: bool)
        ensures
            r == self@.contains(flag),
    {
        match flag {
            LogFlag::SearchDepth => self.search_depth,
            LogFlag::Score => self.score,
            LogFlag::Moves => self.moves,
            LogFlag::Position => self.position,
            LogFlag::GameResult => self.game_result,
            LogFlag::MatchResult => self.match_result,
        }
    }
}

impl Default for LogLevel {
    fn default() -> (l: LogLevel)
        ensures
            l@ == Set::<LogFlag>::empty(),
    {
        LogLevel::new()
    }
}

} // verus!
