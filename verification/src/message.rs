//! What the terminal client reads from the JSON of the servers' messages, and what it
//! makes of it: the text of a table state, the address of a game, the names of the games,
//! and the player's own state.
use vstd::prelude::*;
use vstd::string::*;
use crate::card::{cards_label, cards_text};
use crate::player::Player;
use crate::protocol::string_texts;
use crate::text::{decimal, decimal_text, str_eq};

verus! {

/// One player in a `[GAMESTATE]` message: id and name when given, the rest 0, `false` or
/// no cards when not.
pub struct PlayerLine {
    pub id: Option<u64>,
    pub name: Option<String>,
    pub wallet: u64,
    pub bet: u64,
    pub folded: bool,
    pub hand: Vec<u64>,
}

/// The game in a `[GAMESTATE]` message.
pub struct GameLine {
    pub round: Option<u8>,
    pub community_cards: Option<Vec<u64>>,
}

/// What a `[GAMESTATE]` message holds: each field when present; a turn that is present
/// may be null.
pub struct GameStateView {
    pub turn: Option<Option<u64>>,
    pub pot: Option<u64>,
    pub players: Option<Vec<PlayerLine>>,
    pub game: Option<GameLine>,
}

/// Card numbers cut to their low byte.
pub open spec fn low_bytes(s: Seq<u64>) -> Seq<u8> {
    s.map_values(|n: u64| (n % 256) as u8)
}

/// Card numbers cut to their low byte.
pub fn low_bytes_of(s: &[u64]) -> (r: Vec<u8>)
    ensures
        r@ == low_bytes(s@),
{
    let mut out: Vec<u8> = Vec::new();
    let n = s.len();
    for i in 0..n
        invariant
            n == s@.len(),
            out@.len() == i,
            forall|j: int| 0 <= j < i ==> #[trigger] out@[j] == (s@[j] % 256) as u8,
    {
        out.push((s[i] % 256) as u8);
    }
    proof {
        assert(out@ =~= low_bytes(s@));
    }
    out
}

/// `true` or `false`.
pub open spec fn bool_label(b: bool) -> Seq<char> {
    if b {
        "true"@
    } else {
        "false"@
    }
}

/// A number, or `null`.
pub open spec fn number_or_null(n: Option<u64>) -> Seq<char> {
    match n {
        Some(v) => decimal(v as nat),
        None => "null"@,
    }
}

/// A player's lines in the state display, when the id and the name are given; the name
/// stands in double quotes.
pub open spec fn player_lines(p: PlayerLine) -> Seq<char> {
    match (p.id, p.name) {
        (Some(id), Some(name)) => "  \""@ + name@ + "\" ("@ + decimal(id as nat) + "):\n  Wallet="@ + decimal(
            p.wallet as nat,
        ) + ",\n  Bet="@ + decimal(p.bet as nat) + ",\n  Folded="@ + bool_label(p.folded) + ",\n  Hand="@
            + cards_label(low_bytes(p.hand@)) + "\n"@,
        _ => Seq::empty(),
    }
}

/// The lines of the players, in order.
pub open spec fn players_lines(ps: Seq<PlayerLine>) -> Seq<char>
    decreases ps.len(),
{
    if ps.len() == 0 {
        Seq::empty()
    } else {
        players_lines(ps.drop_last()) + player_lines(ps.last())
    }
}

/// The current turn's line, when a turn is given.
pub open spec fn turn_part(t: Option<Option<u64>>) -> Seq<char> {
    match t {
        Some(n) => "Current turn: Player "@ + number_or_null(n) + "\n"@,
        None => Seq::empty(),
    }
}

/// The pot, when given, with no line break.
pub open spec fn pot_part(p: Option<u64>) -> Seq<char> {
    match p {
        Some(v) => "Pot: "@ + decimal(v as nat),
        None => Seq::empty(),
    }
}

/// The players' block, when players are given.
pub open spec fn players_part(ps: Option<Vec<PlayerLine>>) -> Seq<char> {
    match ps {
        Some(v) => "Players:\n"@ + players_lines(v@),
        None => Seq::empty(),
    }
}

/// The game's block: its round and its community cards when given.
pub open spec fn game_lines(g: GameLine) -> Seq<char> {
    "Game State:\n"@ + match g.round {
        Some(r) => "  Round: "@ + decimal(r as nat) + "\n"@,
        None => Seq::empty(),
    } + match g.community_cards {
        Some(c) => "  Community Cards: "@ + cards_label(low_bytes(c@)) + "\n"@,
        None => Seq::empty(),
    }
}

/// The game's block, when a game is given.
pub open spec fn game_part(g: Option<GameLine>) -> Seq<char> {
    match g {
        Some(line) => game_lines(line),
        None => Seq::empty(),
    }
}

/// The text the client prints for a table state.
pub open spec fn game_state_label(s: GameStateView) -> Seq<char> {
    "\n=== Game State Update ===\n"@ + turn_part(s.turn) + pot_part(s.pot) + "\n"@ + players_part(s.players)
        + game_part(s.game) + "=========================\n\n"@
}

fn bool_text(b: bool) -> (r: String)
    ensures
        r@ == bool_label(b),
{
    proof {
        reveal_strlit("true");
        reveal_strlit("false");
    }
    if b {
        String::from_str("true")
    } else {
        String::from_str("false")
    }
}

fn player_text(p: &PlayerLine) -> (r: String)
    ensures
        r@ == player_lines(*p),
{
    match (&p.id, &p.name) {
        (Some(id), Some(name)) => {
            proof {
                reveal_strlit("  \"");
                reveal_strlit("\" (");
                reveal_strlit("):\n  Wallet=");
                reveal_strlit(",\n  Bet=");
                reveal_strlit(",\n  Folded=");
                reveal_strlit(",\n  Hand=");
                reveal_strlit("\n");
            }
            let mut s = String::from_str("  \"");
            s.append(name.as_str());
            s.append("\" (");
            s.append(decimal_text(*id).as_str());
            s.append("):\n  Wallet=");
            s.append(decimal_text(p.wallet).as_str());
            s.append(",\n  Bet=");
            s.append(decimal_text(p.bet).as_str());
            s.append(",\n  Folded=");
            s.append(bool_text(p.folded).as_str());
            s.append(",\n  Hand=");
            let cards = low_bytes_of(p.hand.as_slice());
            s.append(cards_text(cards.as_slice()).as_str());
            s.append("\n");
            s
        },
        _ => String::new(),
    }
}

fn players_text(ps: &Vec<PlayerLine>) -> (r: String)
    ensures
        r@ == players_lines(ps@),
{
    let mut s = String::new();
    let n = ps.len();
    for i in 0..n
        invariant
            n == ps@.len(),
            s@ == players_lines(ps@.take(i as int)),
    {
        proof {
            assert(ps@.take(i + 1).drop_last() =~= ps@.take(i as int));
            assert(ps@.take(i + 1).last() == ps@[i as int]);
        }
        let t = player_text(&ps[i]);
        s.append(t.as_str());
    }
    proof {
        assert(ps@.take(n as int) =~= ps@);
    }
    s
}

fn game_text(g: &GameLine) -> (r: String)
    ensures
        r@ == game_lines(*g),
{
    proof {
        reveal_strlit("Game State:\n");
        reveal_strlit("  Round: ");
        reveal_strlit("  Community Cards: ");
        reveal_strlit("\n");
    }
    let mut s = String::from_str("Game State:\n");
    let ghost start = s@;
    let mut round = String::new();
    if let Some(r) = g.round {
        round = String::from_str("  Round: ");
        round.append(decimal_text(r as u64).as_str());
        round.append("\n");
    }
    let mut cards = String::new();
    if let Some(c) = &g.community_cards {
        cards = String::from_str("  Community Cards: ");
        let low = low_bytes_of(c.as_slice());
        cards.append(cards_text(low.as_slice()).as_str());
        cards.append("\n");
    }
    s.append(round.as_str());
    s.append(cards.as_str());
    s
}

/// The text the client prints for a table state.
pub fn game_state_summary(state: &GameStateView) -> (r: String)
    ensures
        r@ == game_state_label(*state),
{
    proof {
        reveal_strlit("\n=== Game State Update ===\n");
        reveal_strlit("Current turn: Player ");
        reveal_strlit("null");
        reveal_strlit("\n");
        reveal_strlit("Pot: ");
        reveal_strlit("Players:\n");
        reveal_strlit("=========================\n\n");
    }
    let mut turn = String::new();
    if let Some(t) = state.turn {
        turn = String::from_str("Current turn: Player ");
        match t {
            Some(v) => turn.append(decimal_text(v).as_str()),
            None => turn.append("null"),
        }
        turn.append("\n");
    }
    let mut pot = String::new();
    if let Some(p) = state.pot {
        pot = String::from_str("Pot: ");
        pot.append(decimal_text(p).as_str());
    }
    let mut players = String::new();
    if let Some(ps) = &state.players {
        players = String::from_str("Players:\n");
        players.append(players_text(ps).as_str());
    }
    let game = match &state.game {
        Some(g) => game_text(g),
        None => String::new(),
    };
    let mut s = String::from_str("\n=== Game State Update ===\n");
    s.append(turn.as_str());
    s.append(pot.as_str());
    s.append("\n");
    s.append(players.as_str());
    s.append(game.as_str());
    s.append("=========================\n\n");
    s
}

/// The answer of the lobby to a game's name: its port and multicast group.
pub struct GameInfoReply {
    pub port: u64,
    pub multicast: String,
}

/// Where the client goes for a game: the lobby's address with the game's port (cut to 16
/// bits), and the game's multicast group.
pub fn game_target(ip: &str, reply: &GameInfoReply) -> (r: (String, String))
    ensures
        r.0@ == ip@ + ":"@ + decimal((reply.port % 65536) as nat),
        r.1@ == reply.multicast@,
{
    proof {
        reveal_strlit(":");
    }
    let port: u64 = reply.port % 65536;
    let mut s = String::from_str(ip);
    s.append(":");
    s.append(decimal_text(port).as_str());
    (s, String::from_str(reply.multicast.as_str()))
}

/// The games of a `[GAMES]` message.
pub struct GamesList {
    pub games: Vec<String>,
}

/// The names of the games of all the lists, in order.
pub open spec fn names_of(lists: Seq<GamesList>) -> Seq<Seq<char>>
    decreases lists.len(),
{
    if lists.len() == 0 {
        Seq::empty()
    } else {
        names_of(lists.drop_last()) + string_texts(lists.last().games@)
    }
}

/// The names, each once, where it first occurs.
pub open spec fn distinct(s: Seq<Seq<char>>) -> Seq<Seq<char>>
    decreases s.len(),
{
    if s.len() == 0 {
        Seq::empty()
    } else {
        let d = distinct(s.drop_last());
        if d.contains(s.last()) {
            d
        } else {
            d.push(s.last())
        }
    }
}

fn has_name(names: &Vec<String>, name: &str) -> (r: bool)
    ensures
        r == string_texts(names@).contains(name@),
{
    let n = names.len();
    for i in 0..n
        invariant
            n == names@.len(),
            forall|j: int| 0 <= j < i ==> names@[j]@ != name@,
    {
        if str_eq(names[i].as_str(), name) {
            proof {
                assert(string_texts(names@)[i as int] == name@);
            }
            return true;
        }
    }
    proof {
        if string_texts(names@).contains(name@) {
            let j = choose|j: int| 0 <= j < string_texts(names@).len() && string_texts(names@)[j] == name@;
            assert(names@[j]@ == name@);
        }
    }
    false
}

/// The names of the games in the lists, each once, in the order they first come.
pub fn game_names(lists: &[GamesList]) -> (r: Vec<String>)
    ensures
        string_texts(r@) == distinct(names_of(lists@)),
{
    let mut out: Vec<String> = Vec::new();
    let n = lists.len();
    proof {
        assert(string_texts(out@) =~= Seq::<Seq<char>>::empty());
        assert(lists@.take(0) =~= Seq::<GamesList>::empty());
    }
    for k in 0..n
        invariant
            n == lists@.len(),
            string_texts(out@) == distinct(names_of(lists@.take(k as int))),
    {
        let games = &lists[k].games;
        let m = games.len();
        let ghost base = names_of(lists@.take(k as int));
        proof {
            assert(string_texts(games@).take(0) =~= Seq::<Seq<char>>::empty());
            assert(base + string_texts(games@).take(0) =~= base);
        }
        for j in 0..m
            invariant
                m == games@.len(),
                games@ == lists@[k as int].games@,
                base == names_of(lists@.take(k as int)),
                string_texts(out@) == distinct(base + string_texts(games@).take(j as int)),
        {
            let ghost prev = base + string_texts(games@).take(j as int);
            let ghost next = base + string_texts(games@).take(j + 1);
            proof {
                assert(next.drop_last() =~= prev);
                assert(next.last() == games@[j as int]@);
            }
            let ghost before = out@;
            if !has_name(&out, games[j].as_str()) {
                let name = String::from_str(games[j].as_str());
                out.push(name);
                proof {
                    assert(string_texts(out@) =~= string_texts(before).push(games@[j as int]@));
                }
            }
        }
        proof {
            assert(string_texts(games@).take(m as int) =~= string_texts(games@));
            assert(lists@.take(k + 1).drop_last() =~= lists@.take(k as int));
            assert(lists@.take(k + 1).last() == lists@[k as int]);
        }
    }
    proof {
        assert(lists@.take(n as int) =~= lists@);
    }
    out
}

/// The player's own fields in an `[UPDATE]` message, each when present.
pub struct PlayerUpdate {
    pub wallet: Option<u64>,
    pub bet: Option<u64>,
    pub hand: Option<Vec<u64>>,
}

/// Takes in an `[UPDATE]`: the wallet, the bet and the cards that it gives replace the
/// player's; the rest stays.
pub fn apply_update(player: &mut Player, update: &PlayerUpdate)
    ensures
        final(player).id == old(player).id,
        final(player).name == old(player).name,
        final(player).folded == old(player).folded,
        final(player).wallet == match update.wallet {
            Some(w) => w,
            None => old(player).wallet,
        },
        final(player).bet == match update.bet {
            Some(b) => b,
            None => old(player).bet,
        },
        final(player).hand.0@ == match update.hand {
            Some(h) => low_bytes(h@),
            None => old(player).hand.0@,
        },
{
    if let Some(w) = update.wallet {
        player.wallet = w;
    }
    if let Some(b) = update.bet {
        player.bet = b;
    }
    if let Some(h) = &update.hand {
        player.hand.0 = low_bytes_of(h.as_slice());
    }
}

} // verus!
