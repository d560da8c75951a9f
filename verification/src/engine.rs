//! Reading the commands of the Universal Chess Interface (UCI) that the
//! engine answers: a line is split into words at white space and its first
//! word names the command.
use vstd::prelude::*;
use crate::fen::{parse_u32_spec, parse_u32, chars_to_string};
use crate::text::{str_chars, push_char};
use crate::fen::{fen_stuck, parse_fen};
use crate::play::{starting_position, start_grid, start_state};
use crate::position::{Position, StateView};

verus! {

/// A command read from a line.
#[derive(Debug)]
pub enum Command {
    /// `uci`
    Uci,
    /// `isready`
    IsReady,
    /// `ucinewgame`
    UciNewGame,
    /// `position`: the FEN (`None` for `startpos`) and the words for the
    /// moves to make.
    Position(Option<String>, Vec<String>),
    /// `go`: the depth to search, 0 for none.
    Go(u8),
    /// `stop`
    Stop,
    /// `quit`
    Quit,
    /// `d`: show the position.
    Show,
    /// Anything else, or nothing.
    Nothing,
}

/// `c` is white space (the Unicode property `White_Space`).
pub open spec fn is_space(c: char) -> bool {
    ||| '\t' <= c <= '\r'
    ||| c == ' '
    ||| c == '\u{85}'
    ||| c == '\u{a0}'
    ||| c == '\u{1680}'
    ||| '\u{2000}' <= c <= '\u{200a}'
    ||| c == '\u{2028}'
    ||| c == '\u{2029}'
    ||| c == '\u{202f}'
    ||| c == '\u{205f}'
    ||| c == '\u{3000}'
}

/// The words of `s`: its longest runs of characters that are not white
/// space, in order.
pub open spec fn words(s: Seq<char>) -> Seq<Seq<char>>
    decreases s.len(),
{
    if s.len() == 0 {
        Seq::empty()
    } else {
        let w = words(s.drop_last());
        let c = s.last();
        if is_space(c) {
            w
        } else if s.len() >= 2 && !is_space(s[s.len() - 2]) {
            w.update(w.len() - 1, w.last().push(c))
        } else {
            w.push(seq![c])
        }
    }
}

/// The words `t[i..j]` joined with nothing between them.
pub open spec fn joined(t: Seq<Seq<char>>, i: int, j: int) -> Seq<char>
    decreases j - i,
{
    if j <= i {
        Seq::empty()
    } else {
        joined(t, i, j - 1) + t[j - 1]
    }
}

/// The first index from `i` on of a word `moves` in `t`, or its length.
pub open spec fn moves_index(t: Seq<Seq<char>>, i: int) -> int
    decreases t.len() - i,
{
    if i >= t.len() {
        t.len() as int
    } else if t[i] == "moves"@ {
        i
    } else {
        moves_index(t, i + 1)
    }
}

/// A word read as a depth: a number up to 255, or none.
pub open spec fn depth_of(w: Seq<char>) -> Option<u8> {
    match parse_u32_spec(w) {
        Ok(v) => if v <= 255 { Some(v as u8) } else { None },
        Err(_) => None,
    }
}

/// The depth of a `go` command from word `i` of `t` on, `d` so far: each
/// `depth` followed by a number sets it (to 0 without one); any other word
/// ends the reading.
pub open spec fn go_depth(t: Seq<Seq<char>>, i: int, d: u8) -> u8
    decreases t.len() + 2 - i,
{
    if i >= t.len() || i < 0 || t[i] != "depth"@ {
        d
    } else {
        let next = if i + 1 < t.len() {
            match depth_of(t[i + 1]) {
                Some(v) => v,
                None => 0,
            }
        } else {
            0
        };
        go_depth(t, i + 2, next)
    }
}

/// The position command of the words `t`: `startpos` takes the words after
/// it as moves; otherwise the words up to `moves` are joined into the FEN
/// and the words after `moves` are the moves.
pub open spec fn position_parts(t: Seq<Seq<char>>) -> (Option<Seq<char>>, Seq<Seq<char>>) {
    if t.len() > 1 && t[1] == "startpos"@ {
        (None, t.subrange(2, t.len() as int))
    } else if t.len() <= 1 {
        (Some(Seq::empty()), Seq::empty())
    } else {
        let k = moves_index(t, 2);
        (Some(joined(t, 1, k)), if k < t.len() { t.subrange(k + 1, t.len() as int) } else { Seq::empty() })
    }
}

/// The command of the line whose words are `t`, its texts as sequences.
pub enum CommandView {
    Uci,
    IsReady,
    UciNewGame,
    Position(Option<Seq<char>>, Seq<Seq<char>>),
    Go(u8),
    Stop,
    Quit,
    Show,
    Nothing,
}

/// The command a line with the words `t` asks for.
pub open spec fn command_of(t: Seq<Seq<char>>) -> CommandView {
    if t.len() == 0 {
        CommandView::Nothing
    } else if t[0] == "uci"@ {
        CommandView::Uci
    } else if t[0] == "isready"@ {
        CommandView::IsReady
    } else if t[0] == "ucinewgame"@ {
        CommandView::UciNewGame
    } else if t[0] == "position"@ {
        let (fen, moves) = position_parts(t);
        CommandView::Position(fen, moves)
    } else if t[0] == "go"@ {
        CommandView::Go(go_depth(t, 1, 0))
    } else if t[0] == "stop"@ {
        CommandView::Stop
    } else if t[0] == "quit"@ {
        CommandView::Quit
    } else if t[0] == "d"@ {
        CommandView::Show
    } else {
        CommandView::Nothing
    }
}

impl Command {
    /// This command with its texts as sequences.
    pub open spec fn view(&self) -> CommandView {
        match self {
            Command::Uci => CommandView::Uci,
            Command::IsReady => CommandView::IsReady,
            Command::UciNewGame => CommandView::UciNewGame,
            Command::Position(fen, moves) => CommandView::Position(
                match fen {
                    Some(f) => Some(f@),
                    None => None,
                },
                moves@.map_values(|m: String| m@),
            ),
            Command::Go(d) => CommandView::Go(*d),
            Command::Stop => CommandView::Stop,
            Command::Quit => CommandView::Quit,
            Command::Show => CommandView::Show,
            Command::Nothing => CommandView::Nothing,
        }
    }
}

/// Whether `c` is white space (see `is_space`).
fn space(c: char) -> (r: bool)
    ensures
        r == is_space(c),
{
    ('\t' <= c && c <= '\r') || c == ' ' || c == '\u{85}' || c == '\u{a0}' || c == '\u{1680}' || ('\u{2000}' <= c
        && c <= '\u{200a}') || c == '\u{2028}' || c == '\u{2029}' || c == '\u{202f}' || c == '\u{205f}' || c
        == '\u{3000}'
}

/// The words of `cs` (see `words`).
fn split_words(cs: &Vec<char>) -> (r: Vec<Vec<char>>)
    ensures
        r@.len() == words(cs@).len(),
        forall|k: int| 0 <= k < r@.len() ==> #[trigger] r@[k]@ == words(cs@)[k],
{
    let mut r: Vec<Vec<char>> = Vec::new();
    let mut i: usize = 0;
    while i < cs.len()
        invariant
            i <= cs.len(),
            r@.len() == words(cs@.subrange(0, i as int)).len(),
            forall|k: int| 0 <= k < r@.len() ==> #[trigger] r@[k]@ == words(cs@.subrange(0, i as int))[k],
        decreases cs.len() - i,
    {
        let ghost pre = cs@.subrange(0, i as int);
        let ghost next = cs@.subrange(0, i + 1);
        let ghost w = words(pre);
        let ghost old_r = r@;
        proof {
            assert(next.drop_last() =~= pre);
            assert(next.last() == cs@[i as int]);
        }
        let c = cs[i];
        if space(c) {
            assert(words(next) == w);
        } else if i >= 1 && !space(cs[i - 1]) {
            assert(next[next.len() - 2] == cs@[i - 1]);
            proof {
                lemma_words_nonempty(pre);
            }
            let last = r.len() - 1;
            let mut word = r.pop().unwrap();
            word.push(c);
            r.push(word);
            assert(words(next) == w.update(w.len() - 1, w.last().push(c)));
            assert forall|k: int| 0 <= k < r@.len() implies #[trigger] r@[k]@ == words(next)[k] by {
                if k < last {
                    assert(r@[k] == old_r[k]);
                }
            }
        } else {
            let mut word: Vec<char> = Vec::new();
            word.push(c);
            r.push(word);
            assert(word@ =~= seq![c]);
            assert(words(next) == w.push(seq![c]));
            assert forall|k: int| 0 <= k < r@.len() implies #[trigger] r@[k]@ == words(next)[k] by {
                if k < old_r.len() {
                    assert(r@[k] == old_r[k]);
                }
            }
        }
        i = i + 1;
    }
    assert(cs@.subrange(0, cs.len() as int) =~= cs@);
    r
}

/// A sequence that ends in a character that is not white space has a word.
proof fn lemma_words_nonempty(s: Seq<char>)
    requires
        s.len() > 0,
        !is_space(s.last()),
    ensures
        words(s).len() > 0,
    decreases s.len(),
{
    if s.len() >= 2 && !is_space(s[s.len() - 2]) {
        assert(s.drop_last().last() == s[s.len() - 2]);
        lemma_words_nonempty(s.drop_last());
    }
}

/// Whether the characters `cs` spell `word`.
fn is_word(cs: &Vec<char>, word: &str) -> (r: bool)
    ensures
        r == (cs@ == word@),
{
    let w = str_chars(word);
    if cs.len() != w.len() {
        return false;
    }
    let mut i: usize = 0;
    while i < cs.len()
        invariant
            i <= cs.len(),
            cs.len() == w.len(),
            w@ == word@,
            cs@.subrange(0, i as int) == w@.subrange(0, i as int),
        decreases cs.len() - i,
    {
        if cs[i] != w[i] {
            return false;
        }
        i = i + 1;
        assert(cs@.subrange(0, i as int) =~= w@.subrange(0, i as int));
    }
    assert(cs@ =~= cs@.subrange(0, cs.len() as int));
    assert(w@ =~= w@.subrange(0, w.len() as int));
    assert(cs@ =~= w@);
    true
}

/// The strings of the words `t[i..]`.
fn words_from(t: &Vec<Vec<char>>, i: usize) -> (r: Vec<String>)
    requires
        i <= t@.len(),
    ensures
        r@.map_values(|m: String| m@) == t@.map_values(|w: Vec<char>| w@).subrange(i as int, t@.len() as int),
{
    let mut r: Vec<String> = Vec::new();
    let mut j = i;
    while j < t.len()
        invariant
            i <= j <= t@.len(),
            r@.map_values(|m: String| m@) == t@.map_values(|w: Vec<char>| w@).subrange(i as int, j as int),
        decreases t@.len() - j,
    {
        let s = chars_to_string(&t[j]);
        let ghost old_r = r@;
        r.push(s);
        assert(r@.map_values(|m: String| m@) =~= old_r.map_values(|m: String| m@).push(t@[j as int]@));
        assert(t@.map_values(|w: Vec<char>| w@).subrange(i as int, j + 1) =~= t@.map_values(|w: Vec<char>| w@).subrange(i as int, j as int).push(t@[j as int]@));
        j = j + 1;
        assert(r@.map_values(|m: String| m@) =~= t@.map_values(|w: Vec<char>| w@).subrange(i as int, j as int));
    }
    r
}

/// Reads the command of the line `line` (see `command_of`).
pub fn parse_command(line: &str) -> (r: Command)
    ensures
        r.view() == command_of(words(line@)),
{
    let cs = str_chars(line);
    let t = split_words(&cs);
    let ghost tw = words(line@);
    assert(t@.map_values(|w: Vec<char>| w@) =~= tw);
    if t.len() == 0 {
        return Command::Nothing;
    }
    if is_word(&t[0], "uci") {
        Command::Uci
    } else if is_word(&t[0], "isready") {
        Command::IsReady
    } else if is_word(&t[0], "ucinewgame") {
        Command::UciNewGame
    } else if is_word(&t[0], "position") {
        if t.len() > 1 && is_word(&t[1], "startpos") {
            let moves = words_from(&t, 2);
            return Command::Position(None, moves);
        }
        if t.len() <= 1 {
            let moves: Vec<String> = Vec::new();
            assert(moves@.map_values(|m: String| m@) =~= Seq::<Seq<char>>::empty());
            return Command::Position(Some(String::new()), moves);
        }
        let mut fen = String::new();
        let mut k: usize = 2;
        proof {
            assert(fen@ =~= joined(tw, 1, 1));
            reveal_with_fuel(joined, 2);
        }
        fen.append(chars_to_string(&t[1]).as_str());
        assert(fen@ =~= joined(tw, 1, 2));
        while k < t.len() && !is_word(&t[k], "moves")
            invariant
                2 <= k <= t@.len(),
                tw == t@.map_values(|w: Vec<char>| w@),
                moves_index(tw, 2) == moves_index(tw, k as int),
                fen@ == joined(tw, 1, k as int),
            decreases t@.len() - k,
        {
            fen.append(chars_to_string(&t[k]).as_str());
            k = k + 1;
        }
        let moves = if k < t.len() {
            words_from(&t, k + 1)
        } else {
            let m: Vec<String> = Vec::new();
            assert(m@.map_values(|x: String| x@) =~= Seq::<Seq<char>>::empty());
            m
        };
        Command::Position(Some(fen), moves)
    } else if is_word(&t[0], "go") {
        let mut depth: u8 = 0;
        let mut i: usize = 1;
        while i < t.len() && is_word(&t[i], "depth")
            invariant
                1 <= i <= t@.len() + 1,
                tw == t@.map_values(|w: Vec<char>| w@),
                go_depth(tw, i as int, depth) == go_depth(tw, 1, 0),
            decreases t@.len() + 2 - i,
        {
            let ghost old_depth = depth;
            let ghost old_i = i;
            assert(tw[i as int] == "depth"@);
            depth = if i + 1 < t.len() {
                match parse_u32(&t[i + 1]) {
                    Ok(v) => if v <= 255 { v as u8 } else { 0 },
                    Err(_) => 0,
                }
            } else {
                0
            };
            i = if i + 1 < t.len() { i + 2 } else { t.len() };
            assert(go_depth(tw, old_i as int, old_depth) == go_depth(tw, old_i + 2, depth));
            assert(go_depth(tw, old_i + 2, depth) == go_depth(tw, i as int, depth));
        }
        Command::Go(depth)
    } else if is_word(&t[0], "stop") {
        Command::Stop
    } else if is_word(&t[0], "quit") {
        Command::Quit
    } else if is_word(&t[0], "d") {
        Command::Show
    } else {
        Command::Nothing
    }
}


/// `st` with the list of earlier hashes started, if it was not yet.
pub open spec fn tracking(st: StateView) -> StateView {
    StateView {
        prev_hashes: match st.prev_hashes {
            Some(h) => Some(h),
            None => Some(Seq::empty()),
        },
        ..st
    }
}

/// The position a `position` command sets up before its moves: the one its
/// FEN reads, or the starting position when it has none or the FEN cannot be
/// read; from then on it records the hashes of the positions played.
pub fn position_for(fen: &Option<String>) -> (r: Position)
    requires
        fen matches Some(f) ==> !fen_stuck(f@),
    ensures
        r.wf(),
        match fen {
            Some(f) if parse_fen(f@) is Ok => {
                let (g, st) = parse_fen(f@)->Ok_0;
                r.grid() == g && r.state_spec()@ == tracking(st)
            },
            _ => r.grid() == start_grid() && r.state_spec()@ == tracking(start_state()),
        },
{
    let mut position = match fen {
        None => starting_position(),
        Some(f) => match Position::try_from_fen(f.as_str()) {
            Ok(p) => p,
            Err(_) => starting_position(),
        },
    };
    position.state_mut().track_hashes();
    position
}

} // verus!
