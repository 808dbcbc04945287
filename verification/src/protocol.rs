//! The text protocol of the TCP server and its lobby: what a line from a client asks for,
//! and the lines the server answers with.
use vstd::prelude::*;
use vstd::string::*;
use crate::session::pieces;
use crate::table::amount_of;
use crate::text::{decimal, decimal_text, parse_u64, str_eq, texts, trim, trimmed};

verus! {

/// A debug command of the game server; the connection closes after it.
#[derive(Debug, Clone, Copy, PartialEq, Eq, Structural)]
pub enum DebugCommand {
    /// `DEBUG`: print the table.
    Print,
    /// `DEBUG_PING`: answer `PONG`.
    Ping,
    /// `DEBUG_UDP`: send the state of the table.
    Udp,
    /// `DEBUG_DECK`: print the deck.
    Deck,
    /// `DEBUG_CARDS`: print the cards in play.
    Cards,
    /// `DEBUG_START`: start a hand.
    Start,
    /// `DEBUG_SKIP`: pass the turn.
    Skip,
    /// `DEBUG_END`: play the hand out.
    End,
}

/// What a line from a game client asks for.
#[derive(Debug, Clone, Copy, PartialEq, Eq, Structural)]
pub enum Request {
    /// No words at all.
    Empty,
    /// The answer to a ping.
    Pong,
    /// A debug command.
    Debug(DebugCommand),
    /// `JOIN <id> <name> <wallet>`, with the id if it is a number.
    Join(Option<u64>),
    /// `LEAVE`.
    Leave,
    /// `UPDATE`.
    Update,
    /// Anything else: a move at the table.
    Move,
}

/// The debug command a word names.
pub open spec fn debug_of(w: Seq<char>) -> Option<DebugCommand> {
    if w == "DEBUG"@ {
        Some(DebugCommand::Print)
    } else if w == "DEBUG_PING"@ {
        Some(DebugCommand::Ping)
    } else if w == "DEBUG_UDP"@ {
        Some(DebugCommand::Udp)
    } else if w == "DEBUG_DECK"@ {
        Some(DebugCommand::Deck)
    } else if w == "DEBUG_CARDS"@ {
        Some(DebugCommand::Cards)
    } else if w == "DEBUG_START"@ {
        Some(DebugCommand::Start)
    } else if w == "DEBUG_SKIP"@ {
        Some(DebugCommand::Skip)
    } else if w == "DEBUG_END"@ {
        Some(DebugCommand::End)
    } else {
        None
    }
}

/// What the words of a line ask for, looked at in this order: nothing, `PONG`, a debug
/// command, `JOIN` with three more words, `LEAVE`, `UPDATE`, a move.
pub open spec fn request_of(ws: Seq<Seq<char>>) -> Request {
    if ws.len() == 0 {
        Request::Empty
    } else if ws.len() == 1 && ws[0] == "PONG"@ {
        Request::Pong
    } else if ws.len() == 1 && debug_of(ws[0]) is Some {
        Request::Debug(debug_of(ws[0])->0)
    } else if ws.len() == 4 && ws[0] == "JOIN"@ {
        Request::Join(amount_of(ws[1]))
    } else if ws.len() == 1 && ws[0] == "LEAVE"@ {
        Request::Leave
    } else if ws.len() == 1 && ws[0] == "UPDATE"@ {
        Request::Update
    } else {
        Request::Move
    }
}

/// The debug command a word names.
fn debug_command(w: &str) -> (r: Option<DebugCommand>)
    ensures
        r == debug_of(w@),
{
    proof {
        reveal_strlit("DEBUG");
        reveal_strlit("DEBUG_PING");
        reveal_strlit("DEBUG_UDP");
        reveal_strlit("DEBUG_DECK");
        reveal_strlit("DEBUG_CARDS");
        reveal_strlit("DEBUG_START");
        reveal_strlit("DEBUG_SKIP");
        reveal_strlit("DEBUG_END");
    }
    if str_eq(w, "DEBUG") {
        Some(DebugCommand::Print)
    } else if str_eq(w, "DEBUG_PING") {
        Some(DebugCommand::Ping)
    } else if str_eq(w, "DEBUG_UDP") {
        Some(DebugCommand::Udp)
    } else if str_eq(w, "DEBUG_DECK") {
        Some(DebugCommand::Deck)
    } else if str_eq(w, "DEBUG_CARDS") {
        Some(DebugCommand::Cards)
    } else if str_eq(w, "DEBUG_START") {
        Some(DebugCommand::Start)
    } else if str_eq(w, "DEBUG_SKIP") {
        Some(DebugCommand::Skip)
    } else if str_eq(w, "DEBUG_END") {
        Some(DebugCommand::End)
    } else {
        None
    }
}

/// What the words of a line from a game client ask for.
pub fn classify_request(parts: &[&str]) -> (r: Request)
    ensures
        r == request_of(texts(parts@)),
{
    let ghost ws = texts(parts@);
    proof {
        reveal_strlit("PONG");
        reveal_strlit("JOIN");
        reveal_strlit("LEAVE");
        reveal_strlit("UPDATE");
    }
    if parts.len() == 0 {
        return Request::Empty;
    }
    proof {
        assert(ws[0] == parts@[0]@);
    }
    if parts.len() == 1 && str_eq(parts[0], "PONG") {
        return Request::Pong;
    }
    if parts.len() == 1 {
        match debug_command(parts[0]) {
            Some(d) => {
                return Request::Debug(d);
            },
            None => {},
        }
    }
    if parts.len() == 4 && str_eq(parts[0], "JOIN") {
        proof {
            assert(ws[1] == parts@[1]@);
        }
        return Request::Join(parse_u64(parts[1]));
    }
    if parts.len() == 1 && str_eq(parts[0], "LEAVE") {
        return Request::Leave;
    }
    if parts.len() == 1 && str_eq(parts[0], "UPDATE") {
        return Request::Update;
    }
    Request::Move
}

/// A game the lobby offers: its name, the port of its server and its multicast address.
pub struct GameInfo {
    pub name: String,
    pub port: u16,
    pub multicast: String,
}

/// The names joined, each in double quotes, with commas between.
pub open spec fn quoted_list(names: Seq<Seq<char>>) -> Seq<char>
    decreases names.len(),
{
    if names.len() == 0 {
        Seq::empty()
    } else if names.len() == 1 {
        names[0]
    } else {
        quoted_list(names.drop_last()) + "\",\""@ + names.last()
    }
}

/// The lobby's list of games: `[GAMES] {"games":["a","b"]}` and a newline.
pub open spec fn games_line(names: Seq<Seq<char>>) -> Seq<char> {
    "[GAMES] {\"games\":[\""@ + quoted_list(names) + "\"]}\n"@
}

/// The views of the strings.
pub open spec fn string_texts(v: Seq<String>) -> Seq<Seq<char>> {
    v.map_values(|s: String| s@)
}

/// The lobby's list of games.
pub fn games_message(names: &[String]) -> (r: String)
    ensures
        r@ == games_line(string_texts(names@)),
{
    let ghost ns = string_texts(names@);
    let mut list = String::new();
    let mut k: usize = 0;
    proof {
        assert(ns.take(0) =~= Seq::<Seq<char>>::empty());
    }
    while k < names.len()
        invariant
            k <= names@.len(),
            ns == string_texts(names@),
            list@ == quoted_list(ns.take(k as int)),
        decreases names@.len() - k,
    {
        proof {
            reveal_strlit("\",\"");
            assert(ns.take(k + 1).drop_last() =~= ns.take(k as int));
            assert(ns.take(k + 1).last() == names@[k as int]@);
        }
        if k > 0 {
            list.append("\",\"");
        }
        list.append(names[k].as_str());
        proof {
            if k == 0 {
                assert(list@ =~= names@[0]@);
            }
        }
        k = k + 1;
    }
    proof {
        assert(ns.take(names@.len() as int) =~= ns);
    }
    let mut s = String::from_str("[GAMES] {\"games\":[\"");
    s.append(list.as_str());
    s.append("\"]}\n");
    s
}

/// Where a game's server can be found: `[GAME_INFO] {"port":<port>,"multicast":"<addr>"}`
/// and a newline.
pub open spec fn game_info_line(g: GameInfo) -> Seq<char> {
    "[GAME_INFO] {\"port\":"@ + decimal(g.port as nat) + ",\"multicast\":\""@ + g.multicast@ + "\"}\n"@
}

/// The first game of this name, or -1.
pub open spec fn game_named(games: Seq<GameInfo>, name: Seq<char>) -> int
    decreases games.len(),
{
    if games.len() == 0 {
        -1
    } else if game_named(games.drop_last(), name) >= 0 {
        game_named(games.drop_last(), name)
    } else if games.last().name@ == name {
        games.len() - 1
    } else {
        -1
    }
}

/// The lobby's answer to a line: nothing to a `PONG`; where the named game can be found;
/// or that there is no such game.
pub open spec fn lobby_answer(games: Seq<GameInfo>, line: Seq<char>) -> Option<Seq<char>> {
    let name = trimmed(line);
    if name == "PONG"@ {
        None
    } else if game_named(games, name) >= 0 {
        Some(game_info_line(games[game_named(games, name)]))
    } else {
        Some("[ERROR] Game not found\n"@)
    }
}

/// The lobby's answer to a line from a client.
pub fn lobby_reply(games: &[GameInfo], line: &str) -> (r: Option<String>)
    ensures
        match r {
            Some(s) => lobby_answer(games@, line@) == Some(s@),
            None => lobby_answer(games@, line@) is None,
        },
{
    let name = trim(line);
    proof {
        reveal_strlit("PONG");
        reveal_strlit("[ERROR] Game not found\n");
    }
    if str_eq(name, "PONG") {
        return None;
    }
    let mut k: usize = 0;
    while k < games.len()
        invariant
            k <= games@.len(),
            name@ == trimmed(line@),
            name@ != "PONG"@,
            game_named(games@.take(k as int), name@) == -1,
        decreases games@.len() - k,
    {
        proof {
            assert(games@.take(k + 1).drop_last() =~= games@.take(k as int));
        }
        if str_eq(games[k].name.as_str(), name) {
            proof {
                assert(games@.take(k + 1).last() == games@[k as int]);
                assert(game_named(games@.take(k + 1), name@) == k);
                lemma_game_named_prefix(games@, name@, k + 1);
            }
            let mut s = String::from_str("[GAME_INFO] {\"port\":");
            s.append(decimal_text(games[k].port as u64).as_str());
            s.append(",\"multicast\":\"");
            s.append(games[k].multicast.as_str());
            s.append("\"}\n");
            return Some(s);
        }
        k = k + 1;
    }
    proof {
        assert(games@.take(games@.len() as int) =~= games@);
    }
    Some(String::from_str("[ERROR] Game not found\n"))
}

/// Once a game of the name lies in a prefix, it is the first of the whole list.
proof fn lemma_game_named_prefix(games: Seq<GameInfo>, name: Seq<char>, k: int)
    requires
        0 <= k <= games.len(),
        game_named(games.take(k), name) >= 0,
    ensures
        game_named(games, name) == game_named(games.take(k), name),
    decreases games.len() - k,
{
    if k < games.len() {
        assert(games.take(k + 1).drop_last() =~= games.take(k));
        lemma_game_named_prefix(games, name, k + 1);
    } else {
        assert(games.take(k) =~= games);
    }
}

/// The port and multicast address of the table registered after `count` others.
pub open spec fn table_port(count: nat) -> nat {
    10000 + count % 65536
}

/// The multicast address of the table registered after `count` others.
pub open spec fn table_multicast(count: nat) -> Seq<char> {
    "224.0.0."@ + decimal((count + 1) % 256)
}

/// The port and multicast address of the table registered after `count` others.
pub fn table_address(count: usize) -> (r: (u16, String))
    requires
        count % 65536 <= 55535,
        count < usize::MAX,
    ensures
        r.0 == table_port(count as nat),
        r.1@ == table_multicast(count as nat),
{
    let low: u16 = (count % 65536) as u16;
    let port: u16 = 10000 + low;
    let group: u64 = ((count + 1) % 256) as u64;
    let mut s = String::from_str("224.0.0.");
    s.append(decimal_text(group).as_str());
    (port, s)
}

/// The address a lobby announcement names: `LOBBY:<ip>:<port>` (white space around it
/// allowed) gives `<ip>:<port>`.
pub open spec fn announced_lobby(msg: Seq<char>) -> Option<Seq<char>> {
    let ps = pieces(trimmed(msg), ':');
    if msg.len() >= 6 && msg.take(6) == "LOBBY:"@ && ps.len() == 3 {
        Some(ps[1] + ":"@ + ps[2])
    } else {
        None
    }
}

/// The address a lobby announcement names.
pub fn lobby_address(msg: &str) -> (r: Option<String>)
    ensures
        match r {
            Some(s) => announced_lobby(msg@) == Some(s@),
            None => announced_lobby(msg@) is None,
        },
{
    proof {
        reveal_strlit("LOBBY:");
        reveal_strlit(":");
    }
    let n = msg.unicode_len();
    if n < 6 {
        return None;
    }
    let head = msg.substring_char(0, 6);
    if !str_eq(head, "LOBBY:") {
        return None;
    }
    let parts = crate::session::split_on(trim(msg), ':');
    if parts.len() != 3 {
        return None;
    }
    proof {
        assert(texts(parts@)[1] == parts@[1]@);
        assert(texts(parts@)[2] == parts@[2]@);
    }
    let mut s = String::from_str(parts[1]);
    s.append(":");
    s.append(parts[2]);
    Some(s)
}

} // verus!
