//! The text side of the terminal client: the commands it sends, what a player types, and
//! the messages it picks out of what the server sends.
use vstd::prelude::*;
use vstd::string::*;
use crate::card::value_of;
use crate::text::{decimal, decimal_text, parse_u64, str_eq, texts, trim, trimmed, unsigned_value, words, words_of};

verus! {

/// A command the player types, by its first word in capitals.
#[derive(Debug, Clone, Copy, PartialEq, Eq, Structural)]
pub enum ClientCommand {
    /// `REPLACE` or `RE`: choose cards to swap.
    Replace,
    /// `RAISE` or `R`, with the amount (50 when none or no number is given).
    Raise(u64),
    /// `CHECK` or `C`.
    Check,
    /// `ALL_IN`, `ALLIN` or `A`.
    AllIn,
    /// `FOLD` or `F`.
    Fold,
    /// `UPDATE` or `U`.
    Update,
    /// `PRINT` or `P`.
    Print,
    /// `LEAVE` or `L`.
    Leave,
    /// Any other word.
    Unknown,
}

/// The amount raised when none is given, or when it is not a number.
pub const DEFAULT_RAISE: u64 = 50;

/// The text in capitals, as `str::to_uppercase` gives it.
pub uninterp spec fn uppercase_of(s: Seq<char>) -> Seq<char>;

/// Calls `str::to_uppercase`. The contract claims only that the result is `uppercase_of`
/// the text: that it depends on the text alone. Which capitals Unicode gives is not stated.
#[verifier::external_body]
fn to_upper(s: &str) -> (r: String)
    ensures
        r@ == uppercase_of(s@),
{
    s.to_uppercase()
}

/// Whether a raise of `amount` can be paid from the wallet.
pub fn can_raise(wallet: u64, amount: u64) -> (r: bool)
    ensures
        r == (amount <= wallet),
{
    amount <= wallet
}

/// The amount of a raise: the second word when it is a number, else the default.
pub open spec fn raise_amount(ws: Seq<Seq<char>>) -> u64 {
    if ws.len() > 1 {
        match unsigned_value(ws[1]) {
            Some(v) => if v <= u64::MAX {
                v as u64
            } else {
                DEFAULT_RAISE
            },
            None => DEFAULT_RAISE,
        }
    } else {
        DEFAULT_RAISE
    }
}

/// The command named by a first word in capitals, with the words typed.
pub open spec fn command_of(first: Seq<char>, ws: Seq<Seq<char>>) -> ClientCommand {
    if first == "REPLACE"@ || first == "RE"@ {
        ClientCommand::Replace
    } else if first == "RAISE"@ || first == "R"@ {
        ClientCommand::Raise(raise_amount(ws))
    } else if first == "CHECK"@ || first == "C"@ {
        ClientCommand::Check
    } else if first == "ALLIN"@ || first == "ALL_IN"@ || first == "A"@ {
        ClientCommand::AllIn
    } else if first == "FOLD"@ || first == "F"@ {
        ClientCommand::Fold
    } else if first == "UPDATE"@ || first == "U"@ {
        ClientCommand::Update
    } else if first == "PRINT"@ || first == "P"@ {
        ClientCommand::Print
    } else if first == "LEAVE"@ || first == "L"@ {
        ClientCommand::Leave
    } else {
        ClientCommand::Unknown
    }
}

/// The command named by a first word in capitals, with the words typed.
pub fn client_command(first: &str, parts: &[&str]) -> (r: ClientCommand)
    ensures
        r == command_of(first@, texts(parts@)),
{
    proof {
        reveal_strlit("REPLACE");
        reveal_strlit("RE");
        reveal_strlit("RAISE");
        reveal_strlit("R");
        reveal_strlit("CHECK");
        reveal_strlit("C");
        reveal_strlit("ALLIN");
        reveal_strlit("ALL_IN");
        reveal_strlit("A");
        reveal_strlit("FOLD");
        reveal_strlit("F");
        reveal_strlit("UPDATE");
        reveal_strlit("U");
        reveal_strlit("PRINT");
        reveal_strlit("P");
        reveal_strlit("LEAVE");
        reveal_strlit("L");
    }
    if str_eq(first, "REPLACE") || str_eq(first, "RE") {
        ClientCommand::Replace
    } else if str_eq(first, "RAISE") || str_eq(first, "R") {
        let amount = if parts.len() > 1 {
            proof {
                assert(texts(parts@)[1] == parts@[1]@);
            }
            match parse_u64(parts[1]) {
                Some(v) => v,
                None => DEFAULT_RAISE,
            }
        } else {
            DEFAULT_RAISE
        };
        ClientCommand::Raise(amount)
    } else if str_eq(first, "CHECK") || str_eq(first, "C") {
        ClientCommand::Check
    } else if str_eq(first, "ALLIN") || str_eq(first, "ALL_IN") || str_eq(first, "A") {
        ClientCommand::AllIn
    } else if str_eq(first, "FOLD") || str_eq(first, "F") {
        ClientCommand::Fold
    } else if str_eq(first, "UPDATE") || str_eq(first, "U") {
        ClientCommand::Update
    } else if str_eq(first, "PRINT") || str_eq(first, "P") {
        ClientCommand::Print
    } else if str_eq(first, "LEAVE") || str_eq(first, "L") {
        ClientCommand::Leave
    } else {
        ClientCommand::Unknown
    }
}

/// What the player typed: nothing when there are no words, else the command its first
/// word names.
pub fn parse_input(input: &str) -> (r: Option<ClientCommand>)
    ensures
        words_of(input@).len() == 0 ==> r is None,
        words_of(input@).len() > 0 ==> r == Some(command_of(uppercase_of(words_of(input@)[0]), words_of(input@))),
{
    let parts = words(trim(input));
    proof {
        lemma_words_of_trimmed(input@);
    }
    if parts.len() == 0 {
        return None;
    }
    proof {
        assert(texts(parts@)[0] == parts@[0]@);
    }
    let first = to_upper(parts[0]);
    Some(client_command(first.as_str(), parts.as_slice()))
}

/// Trimming does not change the words.
proof fn lemma_words_of_trimmed(s: Seq<char>)
    ensures
        words_of(trimmed(s)) == words_of(s),
{
    lemma_words_of_trim_end(crate::text::trim_start(s));
    lemma_words_of_trim_start(s);
}

proof fn lemma_words_of_trim_end(s: Seq<char>)
    ensures
        words_of(crate::text::trim_end(s)) == words_of(s),
    decreases s.len(),
{
    if s.len() > 0 && crate::text::is_space(s.last()) {
        lemma_words_of_trim_end(s.drop_last());
    }
}

proof fn lemma_words_of_trim_start(s: Seq<char>)
    ensures
        words_of(crate::text::trim_start(s)) == words_of(s),
    decreases s.len(),
{
    if s.len() > 0 && crate::text::is_space(s[0]) {
        lemma_words_of_trim_start(s.drop_first());
        lemma_words_of_drop_space(s);
    }
}

/// A leading space does not change the words.
proof fn lemma_words_of_drop_space(s: Seq<char>)
    requires
        s.len() > 0,
        crate::text::is_space(s[0]),
    ensures
        words_of(s.drop_first()) == words_of(s),
    decreases s.len(),
{
    if s.len() == 1 {
        assert(s.drop_first() =~= Seq::<char>::empty());
        assert(s.drop_last() =~= Seq::<char>::empty());
    } else {
        lemma_words_of_drop_space(s.drop_last());
        assert(s.drop_first().drop_last() =~= s.drop_last().drop_first());
        assert(s.drop_first().last() == s.last());
        if s.len() > 2 {
            assert(s.drop_first()[s.len() - 3] == s[s.len() - 2]);
        }
    }
}

/// The cards at the chosen positions of the hand: each word that is a number and a
/// position in the hand, in the order typed.
pub open spec fn chosen_cards(hand: Seq<u8>, ws: Seq<Seq<char>>) -> Seq<u8>
    decreases ws.len(),
{
    if ws.len() == 0 {
        Seq::empty()
    } else {
        let rest = chosen_cards(hand, ws.drop_last());
        match unsigned_value(ws.last()) {
            Some(i) => if i < hand.len() && i <= usize::MAX {
                rest.push(hand[i as int])
            } else {
                rest
            },
            None => rest,
        }
    }
}

/// The cards at the positions the player typed; words that are no position are skipped.
pub fn discard_cards(hand: &[u8], parts: &[&str]) -> (r: Vec<u8>)
    ensures
        r@ == chosen_cards(hand@, texts(parts@)),
{
    let ghost ws = texts(parts@);
    let mut out: Vec<u8> = Vec::new();
    let mut k: usize = 0;
    proof {
        assert(ws.take(0) =~= Seq::<Seq<char>>::empty());
    }
    while k < parts.len()
        invariant
            k <= parts@.len(),
            ws == texts(parts@),
            out@ == chosen_cards(hand@, ws.take(k as int)),
        decreases parts@.len() - k,
    {
        proof {
            assert(ws.take(k + 1).drop_last() =~= ws.take(k as int));
            assert(ws.take(k + 1).last() == parts@[k as int]@);
        }
        match parse_u64(parts[k]) {
            Some(i) => {
                if i < hand.len() as u64 {
                    out.push(hand[i as usize]);
                }
            },
            None => {},
        }
        k = k + 1;
    }
    proof {
        assert(ws.take(parts@.len() as int) =~= ws);
    }
    out
}

/// The choice made in the lobby menu.
#[derive(Debug, Clone, Copy, PartialEq, Eq, Structural)]
pub enum LobbyChoice {
    /// 0, or anything that is not a number: leave the program.
    Exit,
    /// A number above the count of games.
    Invalid,
    /// The game at this position of the sorted list.
    Game(usize),
}

/// The choice the typed line makes among `n` games.
pub open spec fn lobby_choice_of(input: Seq<char>, n: nat) -> LobbyChoice {
    match unsigned_value(trimmed(input)) {
        Some(c) => if c == 0 || c > usize::MAX {
            LobbyChoice::Exit
        } else if c > n {
            LobbyChoice::Invalid
        } else {
            LobbyChoice::Game((c - 1) as usize)
        },
        None => LobbyChoice::Exit,
    }
}

/// The choice the typed line makes among `n` games.
pub fn lobby_choice(input: &str, n: usize) -> (r: LobbyChoice)
    ensures
        r == lobby_choice_of(input@, n as nat),
{
    let t = trim(input);
    match parse_u64(t) {
        Some(c) => {
            if c == 0 || c > usize::MAX as u64 {
                LobbyChoice::Exit
            } else if c > n as u64 {
                LobbyChoice::Invalid
            } else {
                LobbyChoice::Game((c - 1) as usize)
            }
        },
        None => LobbyChoice::Exit,
    }
}

/// The line sent for a command: the command with a newline, unless it has one at the end.
pub open spec fn command_line_of(cmd: Seq<char>) -> Seq<char> {
    if cmd.len() > 0 && cmd.last() == '\n' {
        cmd
    } else {
        cmd + "\n"@
    }
}

/// The line sent for a command.
pub fn command_line(cmd: &str) -> (r: String)
    ensures
        r@ == command_line_of(cmd@),
{
    let n = cmd.unicode_len();
    let mut s = String::from_str(cmd);
    if n > 0 && cmd.get_char(n - 1) == '\n' {
        s
    } else {
        s.append("\n");
        s
    }
}

/// The command that joins a table: `JOIN <id> <name> <wallet>`.
pub open spec fn join_line(id: u64, name: Seq<char>, wallet: u64) -> Seq<char> {
    "JOIN "@ + decimal(id as nat) + " "@ + name + " "@ + decimal(wallet as nat)
}

/// The command that joins a table.
pub fn join_command(id: u64, name: &str, wallet: u64) -> (r: String)
    ensures
        r@ == join_line(id, name@, wallet),
{
    let mut s = String::from_str("JOIN ");
    s.append(decimal_text(id).as_str());
    s.append(" ");
    s.append(name);
    s.append(" ");
    s.append(decimal_text(wallet).as_str());
    s
}

/// The numbers joined with single spaces.
pub open spec fn spaced_numbers(cards: Seq<u8>) -> Seq<char>
    decreases cards.len(),
{
    if cards.len() == 0 {
        Seq::empty()
    } else if cards.len() == 1 {
        decimal(cards[0] as nat)
    } else {
        spaced_numbers(cards.drop_last()) + " "@ + decimal(cards.last() as nat)
    }
}

/// The command that swaps cards: `REPLACE_CARDS` and the cards as numbers.
pub fn replace_command(discard: &[u8]) -> (r: String)
    ensures
        r@ == "REPLACE_CARDS "@ + spaced_numbers(discard@),
{
    let mut list = String::new();
    let mut k: usize = 0;
    proof {
        assert(discard@.take(0) =~= Seq::<u8>::empty());
    }
    while k < discard.len()
        invariant
            k <= discard@.len(),
            list@ == spaced_numbers(discard@.take(k as int)),
        decreases discard@.len() - k,
    {
        proof {
            assert(discard@.take(k + 1).drop_last() =~= discard@.take(k as int));
        }
        if k > 0 {
            list.append(" ");
        }
        list.append(decimal_text(discard[k] as u64).as_str());
        k = k + 1;
    }
    proof {
        assert(discard@.take(discard@.len() as int) =~= discard@);
    }
    let mut s = String::from_str("REPLACE_CARDS ");
    s.append(list.as_str());
    s
}

/// The text contains `m` at position `i`.
pub open spec fn found_at(s: Seq<char>, m: Seq<char>, i: int) -> bool {
    0 <= i && i + m.len() <= s.len() && s.subrange(i, i + m.len()) == m
}

/// The first position at or after `i` where the text contains `m`, or -1.
pub open spec fn first_at(s: Seq<char>, m: Seq<char>, i: int) -> int
    decreases s.len() + 1 - i,
{
    if i < 0 || i + m.len() > s.len() {
        -1
    } else if found_at(s, m, i) {
        i
    } else {
        first_at(s, m, i + 1)
    }
}

/// The first position where the text contains `m`.
pub fn find_text(s: &str, m: &str) -> (r: Option<usize>)
    ensures
        match r {
            Some(i) => i as int == first_at(s@, m@, 0),
            None => first_at(s@, m@, 0) == -1,
        },
{
    let n = s.unicode_len();
    let k = m.unicode_len();
    if k > n {
        return None;
    }
    let mut i: usize = 0;
    while i <= n - k
        invariant
            n == s@.len(),
            k == m@.len(),
            k <= n,
            i <= n - k + 1,
            first_at(s@, m@, 0) == first_at(s@, m@, i as int),
        decreases n - i,
    {
        let mut j: usize = 0;
        let mut same = true;
        while j < k
            invariant
                j <= k,
                n == s@.len(),
                k == m@.len(),
                i + k <= n,
                same == forall|t: int| 0 <= t < j ==> s@[i + t] == m@[t],
            decreases k - j,
        {
            if s.get_char(i + j) != m.get_char(j) {
                same = false;
            }
            j = j + 1;
        }
        proof {
            if same {
                assert(s@.subrange(i as int, i + k) =~= m@);
            } else {
                if s@.subrange(i as int, i + k) == m@ {
                    assert forall|t: int| 0 <= t < k implies s@[i + t] == m@[t] by {
                        assert(s@.subrange(i as int, i + k)[t] == s@[i + t]);
                    }
                }
            }
        }
        if same {
            return Some(i);
        }
        i = i + 1;
    }
    None
}

/// Whether the text contains `m`.
pub fn contains_text(s: &str, m: &str) -> (r: bool)
    ensures
        r == (first_at(s@, m@, 0) >= 0),
{
    find_text(s, m).is_some()
}

/// The messages after each `m` in the text, each up to the next `m` or the end, without
/// white space at either end.
pub open spec fn frames_of(s: Seq<char>, m: Seq<char>) -> Seq<Seq<char>>
    decreases s.len(),
{
    let k = first_at(s, m, 0);
    if m.len() == 0 || k < 0 || k + m.len() > s.len() {
        Seq::empty()
    } else {
        let rest = s.skip(k + m.len());
        let e = first_at(rest, m, 0);
        if e < 0 || e > rest.len() {
            seq![trimmed(rest)]
        } else {
            seq![trimmed(rest.take(e))] + frames_of(rest.skip(e), m)
        }
    }
}

/// A match found lies in the text.
proof fn lemma_first_at_bounds(s: Seq<char>, m: Seq<char>, i: int)
    ensures
        first_at(s, m, i) >= 0 ==> i <= first_at(s, m, i) && first_at(s, m, i) + m.len() <= s.len(),
        first_at(s, m, i) >= -1,
    decreases s.len() + 1 - i,
{
    if !(i < 0 || i + m.len() > s.len()) && !found_at(s, m, i) {
        lemma_first_at_bounds(s, m, i + 1);
    }
}

/// The messages after each `m` in the text, as `frames_of` says.
pub fn frames<'a>(s: &'a str, m: &str) -> (r: Vec<&'a str>)
    ensures
        texts(r@) == frames_of(s@, m@),
{
    let mut out: Vec<&'a str> = Vec::new();
    let ml = m.unicode_len();
    if ml == 0 {
        return out;
    }
    let mut rest: &'a str = s;
    proof {
        assert(texts(out@) + frames_of(rest@, m@) =~= frames_of(s@, m@));
    }
    loop
        invariant
            ml == m@.len(),
            ml > 0,
            texts(out@) + frames_of(rest@, m@) == frames_of(s@, m@),
        decreases rest@.len(),
    {
        let n = rest.unicode_len();
        let k = match find_text(rest, m) {
            Some(k) => k,
            None => {
                proof {
                    assert(frames_of(rest@, m@) =~= Seq::<Seq<char>>::empty());
                    assert(texts(out@) + frames_of(rest@, m@) =~= texts(out@));
                }
                return out;
            },
        };
        proof {
            lemma_first_at_bounds(rest@, m@, 0);
        }
        let after = rest.substring_char(k + ml, n);
        let an = after.unicode_len();
        match find_text(after, m) {
            None => {
                let piece = trim(after);
                out.push(piece);
                proof {
                    assert(after@ =~= rest@.skip(k + ml));
                    assert(frames_of(rest@, m@) =~= seq![trimmed(after@)]);
                    assert(texts(out@) =~= texts(out@.drop_last()).push(piece@));
                    assert(texts(out@) =~= frames_of(s@, m@));
                }
                return out;
            },
            Some(e) => {
                proof {
                    lemma_first_at_bounds(after@, m@, 0);
                }
                let piece = trim(after.substring_char(0, e));
                out.push(piece);
                let next = after.substring_char(e, an);
                proof {
                    assert(after@ =~= rest@.skip(k + ml));
                    assert(after@.take(e as int) =~= after@.subrange(0, e as int));
                    assert(next@ =~= after@.skip(e as int));
                    assert(frames_of(rest@, m@) =~= seq![trimmed(after@.take(e as int))] + frames_of(next@, m@));
                    assert(texts(out@) =~= texts(out@.drop_last()).push(piece@));
                    assert(texts(out@) + frames_of(next@, m@) =~= frames_of(s@, m@));
                }
                rest = next;
            },
        }
    }
}

/// What kind of message came from the game server.
#[derive(Debug, Clone, Copy, PartialEq, Eq, Structural)]
pub enum ServerMessage {
    /// It holds `[UPDATE]`: the player's own state.
    Update,
    /// It holds `[GAMESTATE]`: the state of the table.
    GameState,
    /// It holds `[GAMES]`: the games of the lobby.
    Games,
    /// Any other text.
    Other,
    /// Only white space.
    Blank,
}

/// What kind of message the text is, looked at in this order.
pub open spec fn message_kind(s: Seq<char>) -> ServerMessage {
    if first_at(s, "[UPDATE]"@, 0) >= 0 {
        ServerMessage::Update
    } else if first_at(s, "[GAMESTATE]"@, 0) >= 0 {
        ServerMessage::GameState
    } else if first_at(s, "[GAMES]"@, 0) >= 0 {
        ServerMessage::Games
    } else if trimmed(s).len() > 0 {
        ServerMessage::Other
    } else {
        ServerMessage::Blank
    }
}

/// What kind of message came from the game server.
pub fn server_message(s: &str) -> (r: ServerMessage)
    ensures
        r == message_kind(s@),
{
    if contains_text(s, "[UPDATE]") {
        ServerMessage::Update
    } else if contains_text(s, "[GAMESTATE]") {
        ServerMessage::GameState
    } else if contains_text(s, "[GAMES]") {
        ServerMessage::Games
    } else if trim(s).unicode_len() > 0 {
        ServerMessage::Other
    } else {
        ServerMessage::Blank
    }
}

/// The JSON of a table state: after the first `[GAMESTATE]`, up to the next or the end,
/// without white space at either end; the whole text when it has no marker but holds
/// `{"turn":`; nothing otherwise.
pub open spec fn game_state_json(s: Seq<char>) -> Option<Seq<char>> {
    if first_at(s, "[GAMESTATE]"@, 0) >= 0 {
        Some(frames_of(s, "[GAMESTATE]"@)[0])
    } else if first_at(s, "{\"turn\":"@, 0) >= 0 {
        Some(s)
    } else {
        None
    }
}

/// The JSON of a table state in a message from the server.
pub fn game_state_text(s: &str) -> (r: Option<&str>)
    ensures
        match r {
            Some(t) => game_state_json(s@) == Some(t@),
            None => game_state_json(s@) is None,
        },
{
    proof {
        reveal_strlit("[GAMESTATE]");
    }
    if contains_text(s, "[GAMESTATE]") {
        let fs = frames(s, "[GAMESTATE]");
        proof {
            lemma_first_at_bounds(s@, "[GAMESTATE]"@, 0);
            assert(frames_of(s@, "[GAMESTATE]"@).len() > 0);
        }
        if fs.len() == 0 {
            return None;
        }
        proof {
            assert(texts(fs@)[0] == fs@[0]@);
        }
        Some(fs[0])
    } else if contains_text(s, "{\"turn\":") {
        Some(s)
    } else {
        None
    }
}

/// Whether the text begins with `p`.
pub fn starts_with_text(s: &str, p: &str) -> (r: bool)
    ensures
        r == (p@.len() <= s@.len() && s@.take(p@.len() as int) == p@),
{
    let n = s.unicode_len();
    let k = p.unicode_len();
    if k > n {
        return false;
    }
    let head = s.substring_char(0, k);
    proof {
        assert(head@ =~= s@.take(k as int));
    }
    str_eq(head, p)
}

} // verus!
