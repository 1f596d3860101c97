//! The Universal Chess Interface: what each line of input asks for, and the
//! lines that answer it. Reading and printing are left to the caller.
use crate::chess::bitboard::holds;
use crate::chess::magic::Magic;
use crate::chess::tables::leapers::{
    boxed_king_attacks, boxed_knight_attacks, king_reach, knight_reach,
};
use crate::chess::perft::Report;
use crate::chess::tables::rays::Line;
use crate::err::Error as ChessErr;
use crate::chess::board::{starting_position, Board, Position};
use crate::chess::fen::{fen_text, spell_color, spell_placement};
use crate::chess::moves::{spell_move, Move};
use crate::chess::square::{spell_square, Square};
use crate::chess::tables::AttackTables;
use crate::protocols::words::{
    is_word, joined, joined_lower, parse_number, push_lower, spell_number, split_words, texts,
    words_of,
};
use crate::text::{padded_digits, push_padded, push_radix, push_text, radix_digits};
use vstd::string::StrSliceExecFns;
use crate::version::VERSION;
use vstd::prelude::*;
use vstd::string::StringExecFns;

verus! {

/// Whether the engine goes on reading lines.
#[derive(Copy, Clone, Debug, PartialEq, Eq, Structural)]
pub enum State {
    Alive,
    Shutdown,
}

/// Why a line was not obeyed.
#[derive(Debug)]
pub enum Error {
    Syntax,
    UnknownCommand(String),
    Chess(ChessErr),
}

/// What a line asks for.
#[derive(Copy, Clone, Debug, PartialEq, Eq, Structural)]
pub enum Command {
    /// The line holds no word.
    Nothing,
    Uci,
    IsReady,
    SetOption,
    NewGame,
    Position,
    Quit,
    ClearScreen,
    Display,
    Perft,
    Magic,
    ListMagics,
    GenTables,
}

/// What to do about a line: the command, the words after it, and whether
/// to go on afterwards.
pub struct Step {
    pub state: State,
    pub command: Command,
    pub arguments: Vec<String>,
}

/// The command that a first word names, if it names one.
pub open spec fn command_of(word: Seq<char>) -> Option<Command> {
    if word == "uci"@ {
        Some(Command::Uci)
    } else if word == "isready"@ {
        Some(Command::IsReady)
    } else if word == "setoption"@ {
        Some(Command::SetOption)
    } else if word == "ucinewgame"@ {
        Some(Command::NewGame)
    } else if word == "position"@ {
        Some(Command::Position)
    } else if word == "quit"@ || word == "stop"@ {
        Some(Command::Quit)
    } else if word == "cleart"@ {
        Some(Command::ClearScreen)
    } else if word == "d"@ {
        Some(Command::Display)
    } else if word == "perft"@ {
        Some(Command::Perft)
    } else if word == "magic"@ {
        Some(Command::Magic)
    } else if word == "listmagics"@ {
        Some(Command::ListMagics)
    } else if word == "gentables"@ {
        Some(Command::GenTables)
    } else {
        None
    }
}

/// The state after a command.
pub open spec fn state_after(command: Command) -> State {
    if command == Command::Quit {
        State::Shutdown
    } else {
        State::Alive
    }
}

/// The command that a first word names, if it names one.
fn command_for(word: &String) -> (r: Option<Command>)
    ensures
        r == command_of(word@),
{
    if is_word(word, "uci") {
        Some(Command::Uci)
    } else if is_word(word, "isready") {
        Some(Command::IsReady)
    } else if is_word(word, "setoption") {
        Some(Command::SetOption)
    } else if is_word(word, "ucinewgame") {
        Some(Command::NewGame)
    } else if is_word(word, "position") {
        Some(Command::Position)
    } else if is_word(word, "quit") || is_word(word, "stop") {
        Some(Command::Quit)
    } else if is_word(word, "cleart") {
        Some(Command::ClearScreen)
    } else if is_word(word, "d") {
        Some(Command::Display)
    } else if is_word(word, "perft") {
        Some(Command::Perft)
    } else if is_word(word, "magic") {
        Some(Command::Magic)
    } else if is_word(word, "listmagics") {
        Some(Command::ListMagics)
    } else if is_word(word, "gentables") {
        Some(Command::GenTables)
    } else {
        None
    }
}

/// The protocol.
pub struct Uci;

impl Uci {
    /// Decides what a line asks for.
    ///
    /// A line without a word asks for nothing. Otherwise the first word
    /// names the command and the other words are its arguments; `quit` and
    /// `stop` end the session. A first word that names no command is an
    /// error that carries the word.
    pub fn handle_line(line: &str) -> (r: Result<Step, Error>)
        ensures
            ({
                let words = split_words(line@);
                if words.len() == 0 {
                    r matches Ok(step) && step.command == Command::Nothing && step.state
                        == State::Alive && step.arguments@.len() == 0
                } else {
                    match command_of(words[0]) {
                        Some(command) => r matches Ok(step) && step.command == command
                            && step.state == state_after(command) && texts(step.arguments@)
                            == words.skip(1),
                        None => r matches Err(Error::UnknownCommand(word)) && word@ == words[0],
                    }
                }
            }),
    {
        let mut words = words_of(line);
        if words.len() == 0 {
            return Ok(Step { state: State::Alive, command: Command::Nothing, arguments: words });
        }
        let ghost all = texts(words@);
        let first = words.remove(0);
        proof {
            assert(first@ == all[0]);
            assert(texts(words@) =~= all.skip(1));
        }
        match command_for(&first) {
            Some(command) => {
                let state = if command == Command::Quit {
                    State::Shutdown
                } else {
                    State::Alive
                };
                Ok(Step { state, command, arguments: words })
            },
            None => Err(Error::UnknownCommand(first)),
        }
    }
}

impl Error {
    /// The line that reports the error.
    pub open spec fn text(self) -> Seq<char> {
        match self {
            Error::Syntax => "[ERROR] Invalid command syntax"@,
            Error::UnknownCommand(word) => "[ERROR] Unknown command '"@ + word@ + "'"@,
            Error::Chess(ChessErr::InvalidFen) => "[ERROR] Invalid FEN string"@,
            Error::Chess(ChessErr::InvalidColor) => "[ERROR] Invalid color string"@,
            Error::Chess(ChessErr::InvalidSquare) => "[ERROR] Invalid square string"@,
        }
    }

    /// The line that reports the error.
    pub fn to_text(&self) -> (s: String)
        ensures
            s@ == self.text(),
    {
        let mut s = String::new();
        match self {
            Error::Syntax => {
                push_text(&mut s, "[ERROR] Invalid command syntax");
            },
            Error::UnknownCommand(word) => {
                push_text(&mut s, "[ERROR] Unknown command '");
                push_text(&mut s, word.as_str());
                push_text(&mut s, "'");
            },
            Error::Chess(ChessErr::InvalidFen) => {
                push_text(&mut s, "[ERROR] Invalid FEN string");
            },
            Error::Chess(ChessErr::InvalidColor) => {
                push_text(&mut s, "[ERROR] Invalid color string");
            },
            Error::Chess(ChessErr::InvalidSquare) => {
                push_text(&mut s, "[ERROR] Invalid square string");
            },
        }
        proof {
            assert(Seq::<char>::empty() + self.text() =~= self.text());
            assert(s@ =~= self.text());
        }
        s
    }
}

/// The text `text` as a string of its own.
fn line(text: &str) -> (s: String)
    ensures
        s@ == text@,
{
    String::from_str(text)
}

/// The lines that answer `uci`: who the engine is, the options it has, and
/// `uciok`.
pub open spec fn uci_lines() -> Seq<Seq<char>> {
    seq![
        "id name Zorro "@ + VERSION@,
        "id author Filippo Costa"@,
        "option name Clear Hash type button"@,
        "option name Contempt type spin default 20 min -100 max 100"@,
        "option name Hash type spin default 64 min 0 max 131072"@,
        "option name Minimum Thinking Time type spin default 20 min 0 max 5000"@,
        "option name nodestime type spin default 0 min 0 max 10000"@,
        "option name Ponder type check default false"@,
        "option name Skill Level type spin default 20 min 0 max 20"@,
        "option name Slow Mover type spin default 84 min 10 max 1000"@,
        "option name Threads type spin default 1 min 1 max 512"@,
        "option name Move Overhead type spin default 30 min 0 max 60000"@,
        "uciok"@,
    ]
}

/// The lines that answer `uci`.
pub fn uci() -> (lines: Vec<String>)
    ensures
        texts(lines@) == uci_lines(),
{
    let mut lines: Vec<String> = Vec::new();
    let mut name = line("id name Zorro ");
    push_text(&mut name, VERSION);
    lines.push(name);
    lines.push(line("id author Filippo Costa"));
    lines.push(line("option name Clear Hash type button"));
    lines.push(line("option name Contempt type spin default 20 min -100 max 100"));
    lines.push(line("option name Hash type spin default 64 min 0 max 131072"));
    lines.push(line("option name Minimum Thinking Time type spin default 20 min 0 max 5000"));
    lines.push(line("option name nodestime type spin default 0 min 0 max 10000"));
    lines.push(line("option name Ponder type check default false"));
    lines.push(line("option name Skill Level type spin default 20 min 0 max 20"));
    // See http://www.talkchess.com/forum3/viewtopic.php?start=0&t=4230
    lines.push(line("option name Slow Mover type spin default 84 min 10 max 1000"));
    lines.push(line("option name Threads type spin default 1 min 1 max 512"));
    lines.push(line("option name Move Overhead type spin default 30 min 0 max 60000"));
    lines.push(line("uciok"));
    proof {
        assert(texts(lines@) =~= uci_lines());
    }
    lines
}

/// The line that answers `isready`.
pub fn is_ready() -> (s: String)
    ensures
        s@ == "readyok"@,
{
    line("readyok")
}

/// The line that answers `cleart`: the escape sequence that clears a
/// terminal.
pub fn clear_screen() -> (s: String)
    ensures
        s@ == seq!['\u{1b}', '[', '2', 'J'],
{
    let mut s = String::new();
    s.push('\u{1b}');
    s.push('[');
    s.push('2');
    s.push('J');
    proof {
        assert(s@ =~= seq!['\u{1b}', '[', '2', 'J']);
    }
    s
}

/// A bitboard as a line of a table: `0x`, then its sixteen hexadecimal
/// digits.
pub open spec fn table_line(bb: u64) -> Seq<char> {
    "0x"@ + padded_digits(bb as nat, 16, 16)
}

/// A bitboard as a line of a table.
fn table_entry(bb: u64) -> (s: String)
    ensures
        s@ == table_line(bb),
{
    let mut s = line("0x");
    push_padded(&mut s, bb, 16, 16);
    s
}

/// Whether `lines` are the attack tables as text: a heading and the 64
/// attack sets of the king, then a heading and the 64 attack sets of the
/// knight.
pub open spec fn are_tables(lines: Seq<Seq<char>>) -> bool {
    &&& lines.len() == 130
    &&& lines[0] == "KING ATTACKS"@
    &&& lines[65] == "KNIGHT ATTACKS"@
    &&& forall|sq: int| 0 <= sq < 64 ==> #[trigger] is_king_line(lines[1 + sq], sq)
    &&& forall|sq: int| 0 <= sq < 64 ==> #[trigger] is_knight_line(lines[66 + sq], sq)
}

/// Whether `text` is the line of the attack set of a king on `sq`.
pub open spec fn is_king_line(text: Seq<char>, sq: int) -> bool {
    exists|bb: u64| text == table_line(bb) && forall|t: int| holds(bb, t) <==> king_reach(sq, t)
}

/// Whether `text` is the line of the attack set of a knight on `sq`.
pub open spec fn is_knight_line(text: Seq<char>, sq: int) -> bool {
    exists|bb: u64| text == table_line(bb) && forall|t: int| holds(bb, t) <==> knight_reach(sq, t)
}

/// Whether `text` is the line of the magic of the file of `sq`.
pub open spec fn is_magic_line(text: Seq<char>, sq: int) -> bool {
    exists|m: Magic| m.is_for(Line::File, sq) && text == m.text()
}

/// The attack tables of the king and of the knight as text.
pub fn gen_tables() -> (lines: Vec<String>)
    ensures
        are_tables(texts(lines@)),
{
    let kings = boxed_king_attacks();
    let knights = boxed_knight_attacks();
    let mut lines: Vec<String> = Vec::new();
    lines.push(line("KING ATTACKS"));
    let mut i: usize = 0;
    while i < 64
        invariant
            0 <= i <= 64,
            lines@.len() == 1 + i,
            lines@[0]@ == "KING ATTACKS"@,
            forall|sq: int| 0 <= sq < i ==> (#[trigger] lines@[1 + sq])@ == table_line(kings@[sq]),
        decreases 64 - i,
    {
        lines.push(table_entry(kings[i]));
        i = i + 1;
    }
    lines.push(line("KNIGHT ATTACKS"));
    let mut j: usize = 0;
    while j < 64
        invariant
            0 <= j <= 64,
            lines@.len() == 66 + j,
            lines@[0]@ == "KING ATTACKS"@,
            lines@[65]@ == "KNIGHT ATTACKS"@,
            forall|sq: int| 0 <= sq < 64 ==> (#[trigger] lines@[1 + sq])@ == table_line(kings@[sq]),
            forall|sq: int|
                0 <= sq < j ==> (#[trigger] lines@[66 + sq])@ == table_line(knights@[sq]),
        decreases 64 - j,
    {
        lines.push(table_entry(knights[j]));
        j = j + 1;
    }
    proof {
        let out = texts(lines@);
        assert forall|sq: int| 0 <= sq < 64 implies #[trigger] is_king_line(out[1 + sq], sq) by {
            let bb = kings@[sq];
            assert(lines@[1 + sq]@ == table_line(bb));
            assert forall|t: int| holds(bb, t) <==> king_reach(sq, t) by {
                assert(holds(kings@[sq], t) <==> king_reach(sq, t));
            }
        }
        assert forall|sq: int| 0 <= sq < 64 implies #[trigger] is_knight_line(
            out[66 + sq],
            sq,
        ) by {
            let bb = knights@[sq];
            assert(lines@[66 + sq]@ == table_line(bb));
            assert forall|t: int| holds(bb, t) <==> knight_reach(sq, t) by {
                assert(holds(knights@[sq], t) <==> knight_reach(sq, t));
            }
        }
    }
    lines
}

/// The magics of the files as text, one line for each square.
pub fn list_magics() -> (lines: Vec<String>)
    ensures
        lines@.len() == 64,
        forall|sq: int| 0 <= sq < 64 ==> is_magic_line(#[trigger] lines@[sq]@, sq),
{
    let magics = Magic::by_file();
    let mut lines: Vec<String> = Vec::new();
    let mut i: usize = 0;
    while i < 64
        invariant
            0 <= i <= 64,
            lines@.len() == i,
            forall|sq: int| 0 <= sq < 64 ==> (#[trigger] magics@[sq]).is_for(Line::File, sq),
            forall|sq: int| 0 <= sq < i ==> (#[trigger] lines@[sq])@ == magics@[sq].text(),
        decreases 64 - i,
    {
        lines.push(magics[i].to_text());
        i = i + 1;
    }
    proof {
        assert forall|sq: int| 0 <= sq < 64 implies is_magic_line(#[trigger] lines@[sq]@, sq) by {
            let m = magics@[sq];
            assert(m.is_for(Line::File, sq) && lines@[sq]@ == m.text());
        }
    }
    lines
}

/// A number as the answer to `magic`: `0x`, then its hexadecimal digits.
pub open spec fn magic_line(value: u64) -> Seq<char> {
    "0x"@ + radix_digits(value as nat, 16)
}

/// Answers `magic`: for the square that the first word names and the kind
/// that the second word names, a line with the index that the magic of the
/// file gives the occupancy written by the third word (kind `file`), or
/// with the attack set of the knight (kind `knight`). A kind that is
/// neither gets no line. Without a third word the occupancy is empty.
///
/// It is a syntax error where a word is missing, the first names no
/// square or the third writes no number.
pub fn magic(arguments: &Vec<String>) -> (r: Result<Option<String>, Error>)
    ensures
        ({
            let words = texts(arguments@);
            let occupancy = if words.len() >= 3 {
                spell_number(words[2])
            } else {
                Some(0u64)
            };
            if words.len() >= 2 && spell_square(words[0]) is Some && occupancy is Some {
                let sq = spell_square(words[0])->0;
                let bb = occupancy->0;
                if words[1] == "file"@ {
                    r matches Ok(Some(s)) && exists|m: Magic|
                        m.is_for(Line::File, sq) && s@ == magic_line(m.index_of(bb))
                } else if words[1] == "knight"@ {
                    r matches Ok(Some(s)) && exists|attacks: u64|
                        s@ == magic_line(attacks) && forall|t: int|
                            holds(attacks, t) <==> knight_reach(sq, t)
                } else {
                    r matches Ok(None)
                }
            } else {
                r matches Err(Error::Syntax)
            }
        }),
{
    if arguments.len() < 2 {
        return Err(Error::Syntax);
    }
    let ghost words = texts(arguments@);
    assert(words[0] == arguments@[0]@ && words[1] == arguments@[1]@);
    let square = match Square::from_str(arguments[0].as_str()) {
        Ok(sq) => sq,
        Err(_) => {
            return Err(Error::Syntax);
        },
    };
    let bb: u64 = if arguments.len() >= 3 {
        assert(words[2] == arguments@[2]@);
        match parse_number(arguments[2].as_str()) {
            Some(n) => n,
            None => {
                return Err(Error::Syntax);
            },
        }
    } else {
        0
    };
    if is_word(&arguments[1], "file") {
        let magics = Magic::by_file();
        let m = magics[square.i()];
        let index = m.magify(bb);
        let mut s = line("0x");
        push_radix(&mut s, index, 16);
        proof {
            assert(m.is_for(Line::File, square.idx()) && s@ == magic_line(m.index_of(bb)));
        }
        Ok(Some(s))
    } else if is_word(&arguments[1], "knight") {
        let knights = boxed_knight_attacks();
        let attacks = knights[square.i()];
        let mut s = line("0x");
        push_radix(&mut s, attacks, 16);
        proof {
            assert forall|t: int| holds(attacks, t) <==> knight_reach(square.idx(), t) by {
                assert(holds(knights@[square.idx()], t) <==> knight_reach(square.idx(), t));
            }
            assert(s@ == magic_line(attacks));
        }
        Ok(Some(s))
    } else {
        Ok(None)
    }
}

/// What `d` shows.
#[derive(Copy, Clone, Debug, PartialEq, Eq, Structural)]
pub enum Display {
    /// The position in a browser.
    Lichess,
    /// The position in Forsyth-Edwards notation.
    Fen,
    /// The board as a diagram.
    Board,
}

/// Decides what `d` shows: the diagram without a word, the browser for
/// `lichess`, the notation for `fen`; any other word is a syntax error.
pub fn d(arguments: &Vec<String>) -> (r: Result<Display, Error>)
    ensures
        ({
            let words = texts(arguments@);
            if words.len() == 0 {
                r matches Ok(Display::Board)
            } else if words[0] == "lichess"@ {
                r matches Ok(Display::Lichess)
            } else if words[0] == "fen"@ {
                r matches Ok(Display::Fen)
            } else {
                r matches Err(Error::Syntax)
            }
        }),
{
    if arguments.len() == 0 {
        return Ok(Display::Board);
    }
    assert(texts(arguments@)[0] == arguments@[0]@);
    if is_word(&arguments[0], "lichess") {
        Ok(Display::Lichess)
    } else if is_word(&arguments[0], "fen") {
        Ok(Display::Fen)
    } else {
        Err(Error::Syntax)
    }
}

/// The depth that the words after `perft` ask for: the number that the
/// first word writes, or 1 without a word.
pub open spec fn perft_depth(words: Seq<Seq<char>>) -> Option<u64> {
    if words.len() == 0 {
        Some(1u64)
    } else {
        spell_number(words[0])
    }
}

/// Answers `perft`: runs perft on the board to the depth that the first
/// word writes, or to depth 1 without a word, and gives the report as
/// text. The board is left as it was.
///
/// It is a syntax error where the first word writes no number, or one that
/// does not fit in a `usize`.
pub fn perft(board: &mut Board, tables: &AttackTables, arguments: &Vec<String>) -> (r: Result<
    String,
    Error,
>)
    ensures
        *final(board) == *old(board),
        match perft_depth(texts(arguments@)) {
            Some(depth) if depth <= usize::MAX => r matches Ok(s) && exists|report: Report|
                report.is_perft_of(old(board)@, depth as nat) && s@ == report.text(),
            _ => r matches Err(Error::Syntax),
        },
{
    proof {
        use_type_invariant(&*board);
    }
    let depth: u64 = if arguments.len() == 0 {
        1
    } else {
        assert(texts(arguments@)[0] == arguments@[0]@);
        match parse_number(arguments[0].as_str()) {
            Some(n) => n,
            None => {
                return Err(Error::Syntax);
            },
        }
    };
    if depth > usize::MAX as u64 {
        return Err(Error::Syntax);
    }
    let report = board.perft(tables, depth as usize);
    Ok(report.to_text())
}

/// What `setoption` changes.
#[derive(Copy, Clone, Debug, PartialEq, Eq, Structural)]
pub enum OptionChange {
    /// The size of the cache, in bytes.
    CacheSize(u64),
    /// Whether the engine ponders.
    Ponder(bool),
    /// An option that the engine does not have: nothing changes.
    Nothing,
}

/// The place of the first word `value` at or after `from`, or the number
/// of words where there is none.
pub open spec fn value_at(words: Seq<Seq<char>>, from: int) -> int
    decreases words.len() - from,
{
    if from >= words.len() {
        words.len() as int
    } else if words[from] == "value"@ {
        from
    } else {
        value_at(words, from + 1)
    }
}

/// The name of the option: the words between `name` and `value`, joined.
pub open spec fn option_name(words: Seq<Seq<char>>) -> Seq<char> {
    joined(words.subrange(1, value_at(words, 1)))
}

/// The value of the option: the words after `value`, in lower case and
/// joined.
pub open spec fn option_value(words: Seq<Seq<char>>) -> Seq<char> {
    let at = value_at(words, 1);
    if at < words.len() {
        joined_lower(words.subrange(at + 1, words.len() as int))
    } else {
        Seq::empty()
    }
}

/// `bytesize::ByteSize::mib`, read back with `as_u64`: the number of bytes
/// in `n` mebibytes, which is `n` times 1,048,576. The product has to fit
/// in 64 bits.
#[verifier::external_body]
fn mebibytes(n: u64) -> (bytes: u64)
    requires
        n * 1_048_576 <= u64::MAX,
    ensures
        bytes == n * 1_048_576,
{
    bytesize::ByteSize::mib(n).as_u64()
}

/// Decides what `setoption` changes, from the words after it.
///
/// The first word has to be `name`. The words up to `value` are joined to
/// the name of the option, and the words after it, in lower case, to its
/// value. `hash` sets the size of the cache to as many mebibytes as the
/// value writes. `ponder` is switched off by a value that starts with `f`,
/// `n` or `0`, and switched on by any other. Any other option changes
/// nothing.
///
/// It is a syntax error where the first word is not `name`, or where the
/// value of `hash` writes no number of mebibytes that fits in 64 bits of
/// bytes.
pub fn set_option(arguments: &Vec<String>) -> (r: Result<OptionChange, Error>)
    ensures
        ({
            let words = texts(arguments@);
            let name = option_name(words);
            let value = option_value(words);
            if words.len() == 0 || words[0] != "name"@ {
                r matches Err(Error::Syntax)
            } else if name == "hash"@ {
                match spell_number(value) {
                    Some(n) if n * 1_048_576 <= u64::MAX => r matches Ok(
                        OptionChange::CacheSize(bytes),
                    ) && bytes == n * 1_048_576,
                    _ => r matches Err(Error::Syntax),
                }
            } else if name == "ponder"@ {
                r matches Ok(OptionChange::Ponder(on)) && on == !(value.len() > 0 && (value[0]
                    == 'f' || value[0] == 'n' || value[0] == '0'))
            } else {
                r matches Ok(OptionChange::Nothing)
            }
        }),
{
    let ghost words = texts(arguments@);
    let count = arguments.len();
    if count == 0 {
        return Err(Error::Syntax);
    }
    assert(words[0] == arguments@[0]@);
    if !is_word(&arguments[0], "name") {
        return Err(Error::Syntax);
    }
    let mut name = String::new();
    let mut i: usize = 1;
    proof {
        assert(words.subrange(1, 1) =~= Seq::<Seq<char>>::empty());
    }
    loop
        invariant_except_break
            value_at(words, 1) == value_at(words, i as int),
        invariant
            words == texts(arguments@),
            count == arguments@.len(),
            1 <= i <= count,
            name@ == joined(words.subrange(1, i as int)),
        ensures
            i == value_at(words, 1),
        decreases count - i,
    {
        if i >= count {
            break ;
        }
        assert(words[i as int] == arguments@[i as int]@);
        if is_word(&arguments[i], "value") {
            break ;
        }
        push_text(&mut name, arguments[i].as_str());
        proof {
            let upto = words.subrange(1, i as int + 1);
            assert(upto.drop_last() =~= words.subrange(1, i as int));
            assert(upto.last() == words[i as int]);
        }
        i = i + 1;
    }
    let mut value = String::new();
    if i < count {
        let start = i + 1;
        let mut j: usize = start;
        proof {
            assert(words.subrange(start as int, start as int) =~= Seq::<Seq<char>>::empty());
            assert(joined_lower(Seq::<Seq<char>>::empty()) =~= Seq::<char>::empty());
        }
        while j < count
            invariant
                words == texts(arguments@),
                count == arguments@.len(),
                start <= j <= count,
                value@ == joined_lower(words.subrange(start as int, j as int)),
            decreases count - j,
        {
            assert(words[j as int] == arguments@[j as int]@);
            push_lower(&mut value, arguments[j].as_str());
            proof {
                let upto = words.subrange(start as int, j as int + 1);
                assert(upto.drop_last() =~= words.subrange(start as int, j as int));
                assert(upto.last() == words[j as int]);
                assert(value@ =~= joined_lower(upto));
            }
            j = j + 1;
        }
    }
    if is_word(&name, "hash") {
        match parse_number(value.as_str()) {
            Some(n) => {
                if n > u64::MAX / 1_048_576 {
                    return Err(Error::Syntax);
                }
                Ok(OptionChange::CacheSize(mebibytes(n)))
            },
            None => Err(Error::Syntax),
        }
    } else if is_word(&name, "ponder") {
        let off = if value.as_str().is_empty() {
            false
        } else {
            let c = value.as_str().get_char(0);
            c == 'f' || c == 'n' || c == '0'
        };
        Ok(OptionChange::Ponder(!off))
    } else {
        Ok(OptionChange::Nothing)
    }
}

/// The position after the moves that the words write are made one after
/// the other, up to the first word that writes no move, and whether every
/// word wrote a move.
pub open spec fn play_words(pos: Position, words: Seq<Seq<char>>) -> (Position, bool)
    decreases words.len(),
{
    if words.len() == 0 {
        (pos, true)
    } else {
        let (before, all) = play_words(pos, words.drop_last());
        match spell_move(words.last()) {
            Some(m) if all => (before.apply(m), true),
            _ => (before, false),
        }
    }
}

/// The words from place `n` on; none where there are no more than `n`.
pub open spec fn words_from(words: Seq<Seq<char>>, n: int) -> Seq<Seq<char>> {
    if 0 <= n <= words.len() {
        words.skip(n)
    } else {
        Seq::empty()
    }
}

/// Whether `board` is what `position` leaves of a board at `old` and what
/// it returned is `r`.
///
/// The first word sets the position up: `startpos` is the start of a game,
/// `current` the position as it is, and `fen` the position that the next
/// two words write in Forsyth-Edwards notation, followed by four words
/// that are not looked at. One more word is passed over, and every word
/// after it is a move that is made.
///
/// Nothing is set up, and the board stays as it was, where there is no
/// first word or it is none of the three (a syntax error), and where the
/// notation is refused (the error of the notation). A word that writes no
/// move stops the moves with the error of a square, and the moves before
/// it stay made.
pub open spec fn position_outcome(
    old: Board,
    words: Seq<Seq<char>>,
    board: Board,
    r: Result<(), Error>,
) -> bool {
    if words.len() == 0 {
        board == old && r matches Err(Error::Syntax)
    } else if words[0] == "startpos"@ {
        moves_outcome(starting_position(), words_from(words, 2), board, r)
    } else if words[0] == "fen"@ {
        if words.len() < 3 {
            board == old && r matches Err(Error::Chess(ChessErr::InvalidFen))
        } else {
            match (spell_placement(words[1]), spell_color(words[2])) {
                (Some(squares), Some(color)) => moves_outcome(
                    Position { squares, to_move: color },
                    words_from(words, 8),
                    board,
                    r,
                ),
                (None, _) => board == old && r matches Err(Error::Chess(ChessErr::InvalidFen)),
                (Some(_), None) => board == old && r matches Err(
                    Error::Chess(ChessErr::InvalidColor),
                ),
            }
        }
    } else if words[0] == "current"@ {
        moves_outcome(old@, words_from(words, 2), board, r)
    } else {
        board == old && r matches Err(Error::Syntax)
    }
}

/// Whether `board` shows `start` after the moves of `words`, and `r` says
/// whether every word wrote a move.
pub open spec fn moves_outcome(
    start: Position,
    words: Seq<Seq<char>>,
    board: Board,
    r: Result<(), Error>,
) -> bool {
    let (end, all) = play_words(start, words);
    &&& board@ == end
    &&& if all {
        r is Ok
    } else {
        r matches Err(Error::Chess(ChessErr::InvalidSquare))
    }
}

/// Answers `position`: sets the board up and makes the moves that follow,
/// as `position_outcome` says.
pub fn position(board: &mut Board, arguments: &Vec<String>) -> (r: Result<(), Error>)
    ensures
        final(board).wf(),
        position_outcome(*old(board), texts(arguments@), *final(board), r),
{
    proof {
        use_type_invariant(&*board);
    }
    let ghost words = texts(arguments@);
    let count = arguments.len();
    if count == 0 {
        return Err(Error::Syntax);
    }
    assert(words[0] == arguments@[0]@);
    let first: usize;
    if is_word(&arguments[0], "startpos") {
        *board = Board::default();
        first = 2;
    } else if is_word(&arguments[0], "fen") {
        if count < 3 {
            return Err(Error::Chess(ChessErr::InvalidFen));
        }
        assert(words[1] == arguments@[1]@ && words[2] == arguments@[2]@);
        match Board::from_fen(arguments[1].as_str(), arguments[2].as_str()) {
            Ok(read) => {
                *board = read;
            },
            Err(e) => {
                return Err(Error::Chess(e));
            },
        }
        first = 8;
    } else if is_word(&arguments[0], "current") {
        first = 2;
    } else {
        return Err(Error::Syntax);
    }
    let ghost start = board@;
    let ghost rest = words_from(words, first as int);
    let mut i: usize = if first < count {
        first
    } else {
        count
    };
    let ghost begin = i;
    let mut all = true;
    proof {
        assert(rest.take(0) =~= Seq::<Seq<char>>::empty());
        assert(rest =~= words.skip(begin as int));
    }
    while i < count && all
        invariant
            board.wf(),
            words == texts(arguments@),
            count == arguments@.len(),
            begin <= i <= count,
            rest == words.skip(begin as int),
            all ==> play_words(start, rest.take(i - begin)) == (board@, true),
            !all ==> i < count && play_words(start, rest.take(i - begin + 1)) == (board@, false),
        decreases count - i + (if all { 1int } else { 0 }),
    {
        assert(words[i as int] == arguments@[i as int]@);
        proof {
            let upto = rest.take(i - begin + 1);
            assert(upto.drop_last() =~= rest.take(i - begin));
            assert(upto.last() == words[i as int]);
        }
        match Move::parse(arguments[i].as_str()) {
            Ok(m) => {
                board.do_move(m);
                i = i + 1;
            },
            Err(_) => {
                all = false;
            },
        }
    }
    if all {
        proof {
            assert(rest.take(count - begin) =~= rest);
        }
        Ok(())
    } else {
        proof {
            lemma_play_stops(start, rest, i - begin + 1);
        }
        Err(Error::Chess(ChessErr::InvalidSquare))
    }
}

/// Once a word of the beginning wrote no move, the moves of all the words
/// are those of that beginning.
pub proof fn lemma_play_stops(pos: Position, words: Seq<Seq<char>>, n: int)
    requires
        0 <= n <= words.len(),
        !play_words(pos, words.take(n)).1,
    ensures
        play_words(pos, words) == play_words(pos, words.take(n)),
    decreases words.len() - n,
{
    if n < words.len() {
        assert(words.take(n + 1).drop_last() =~= words.take(n));
        lemma_play_stops(pos, words, n + 1);
    } else {
        assert(words.take(n) =~= words);
    }
}

/// The address of the position on the analysis board of lichess.org.
pub open spec fn lichess_address(pos: Position) -> Seq<char> {
    "https://lichess.org/analysis/"@ + fen_text(pos, '_')
}

/// The address of the position on the analysis board of lichess.org.
pub fn lichess_url(board: &Board) -> (s: String)
    ensures
        s@ == lichess_address(board@),
{
    proof {
        use_type_invariant(board);
    }
    let mut s = line("https://lichess.org/analysis/");
    let fen = board.fmt_fen('_');
    push_text(&mut s, fen.as_str());
    s
}

} // verus!
