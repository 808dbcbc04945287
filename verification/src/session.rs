//! Sessions of the browser front end: the cookie that names a player, and new player ids.
use vstd::prelude::*;
use vstd::string::*;
use crate::text::{decimal, decimal_text, parse_u64, str_eq, texts, trim, trimmed, unsigned_value};

verus! {

/// The largest integer that JavaScript holds exactly; player ids stay below it.
pub const MAX_SAFE_JS_INTEGER: u64 = 9_007_199_254_740_991;

/// The pieces of the text between the separators, as `str::split` gives them.
pub open spec fn pieces(s: Seq<char>, sep: char) -> Seq<Seq<char>>
    decreases s.len(),
{
    if s.len() == 0 {
        seq![Seq::empty()]
    } else {
        let p = pieces(s.drop_last(), sep);
        if s.last() == sep {
            p.push(Seq::empty())
        } else {
            p.update(p.len() - 1, p.last().push(s.last()))
        }
    }
}

/// The position of the first `c` in the text, or -1.
pub open spec fn first_index_of(s: Seq<char>, c: char) -> int
    decreases s.len(),
{
    if s.len() == 0 {
        -1
    } else if first_index_of(s.drop_last(), c) >= 0 {
        first_index_of(s.drop_last(), c)
    } else if s.last() == c {
        s.len() - 1
    } else {
        -1
    }
}

/// The text before and after its first `c`, as `str::split_once` gives them.
pub open spec fn split_once(s: Seq<char>, c: char) -> Option<(Seq<char>, Seq<char>)> {
    let k = first_index_of(s, c);
    if k < 0 {
        None
    } else {
        Some((s.take(k), s.skip(k + 1)))
    }
}

/// The player id that one piece of a cookie header names: `poker_session=<id>`, white
/// space around it allowed, with an id above 0.
pub open spec fn session_in(piece: Seq<char>) -> Option<u64> {
    match split_once(trimmed(piece), '=') {
        Some((name, value)) => if name == "poker_session"@ {
            match unsigned_value(value) {
                Some(v) => if 0 < v <= u64::MAX {
                    Some(v as u64)
                } else {
                    None
                },
                None => None,
            }
        } else {
            None
        },
        None => None,
    }
}

/// The id named by the first piece that names one.
pub open spec fn first_session(ps: Seq<Seq<char>>) -> Option<u64>
    decreases ps.len(),
{
    if ps.len() == 0 {
        None
    } else {
        match session_in(ps[0]) {
            Some(v) => Some(v),
            None => first_session(ps.drop_first()),
        }
    }
}

/// The pieces of the text between the separators, as `str::split` gives them.
pub fn split_on(s: &str, sep: char) -> (r: Vec<&str>)
    ensures
        texts(r@) == pieces(s@, sep),
{
    let n = s.unicode_len();
    let mut out: Vec<&str> = Vec::new();
    let mut start: usize = 0;
    let mut i: usize = 0;
    proof {
        assert(s@.take(0) =~= Seq::<char>::empty());
        assert(s@.subrange(0, 0) =~= Seq::<char>::empty());
        assert(texts(out@).push(Seq::empty()) =~= seq![Seq::<char>::empty()]);
    }
    while i < n
        invariant
            i <= n,
            n == s@.len(),
            start <= i,
            pieces(s@.take(i as int), sep) == texts(out@).push(s@.subrange(start as int, i as int)),
        decreases n - i,
    {
        let c = s.get_char(i);
        proof {
            assert(s@.take(i + 1).drop_last() =~= s@.take(i as int));
            assert(s@.take(i + 1).last() == c);
        }
        if c == sep {
            let w = s.substring_char(start, i);
            out.push(w);
            start = i + 1;
            proof {
                assert(texts(out@) =~= texts(out@.drop_last()).push(w@));
                assert(s@.subrange(start as int, i + 1) =~= Seq::<char>::empty());
            }
        } else {
            proof {
                assert(s@.subrange(start as int, i + 1) =~= s@.subrange(start as int, i as int).push(c));
            }
        }
        i = i + 1;
    }
    let w = s.substring_char(start, n);
    out.push(w);
    proof {
        assert(s@.take(n as int) =~= s@);
        assert(texts(out@) =~= texts(out@.drop_last()).push(w@));
    }
    out
}

/// The position of the first `c` in the text.
fn find_char(s: &str, c: char) -> (r: Option<usize>)
    ensures
        match r {
            Some(k) => k as int == first_index_of(s@, c),
            None => first_index_of(s@, c) == -1,
        },
{
    let n = s.unicode_len();
    let mut i: usize = 0;
    while i < n
        invariant
            i <= n,
            n == s@.len(),
            first_index_of(s@.take(i as int), c) == -1,
        decreases n - i,
    {
        proof {
            assert(s@.take(i + 1).drop_last() =~= s@.take(i as int));
        }
        if s.get_char(i) == c {
            proof {
                lemma_first_index_prefix(s@, c, i + 1);
            }
            return Some(i);
        }
        i = i + 1;
    }
    proof {
        assert(s@.take(n as int) =~= s@);
    }
    None
}

/// The first `c` lies in the text, and is a `c`.
proof fn lemma_first_index_bounds(s: Seq<char>, c: char)
    ensures
        -1 <= first_index_of(s, c) < s.len(),
        first_index_of(s, c) >= 0 ==> s[first_index_of(s, c)] == c,
    decreases s.len(),
{
    if s.len() > 0 {
        lemma_first_index_bounds(s.drop_last(), c);
    }
}

/// Once the first `c` lies in a prefix, it is the first `c` of the whole text.
proof fn lemma_first_index_prefix(s: Seq<char>, c: char, k: int)
    requires
        0 <= k <= s.len(),
        first_index_of(s.take(k), c) >= 0,
    ensures
        first_index_of(s, c) == first_index_of(s.take(k), c),
    decreases s.len() - k,
{
    if k < s.len() {
        assert(s.take(k + 1).drop_last() =~= s.take(k));
        lemma_first_index_prefix(s, c, k + 1);
    } else {
        assert(s.take(k) =~= s);
    }
}

/// The player id one piece of a cookie header names.
fn session_from_piece(piece: &str) -> (r: Option<u64>)
    ensures
        r == session_in(piece@),
{
    let t = trim(piece);
    let k = match find_char(t, '=') {
        Some(k) => k,
        None => {
            return None;
        },
    };
    let n = t.unicode_len();
    proof {
        lemma_first_index_bounds(t@, '=');
    }
    let name = t.substring_char(0, k);
    let value = t.substring_char(k + 1, n);
    proof {
        reveal_strlit("poker_session");
        assert(name@ =~= t@.take(k as int));
        assert(value@ =~= t@.skip(k + 1));
    }
    if !str_eq(name, "poker_session") {
        return None;
    }
    match parse_u64(value) {
        Some(v) => if v > 0 {
            Some(v)
        } else {
            None
        },
        None => None,
    }
}

/// The player id that a browser's cookie header names in its `poker_session` cookie: the
/// first such cookie whose value is a number above 0.
pub fn player_id_from_cookie(cookie_header: &str) -> (r: Option<u64>)
    ensures
        r == first_session(pieces(cookie_header@, ';')),
{
    let parts = split_on(cookie_header, ';');
    let ghost ps = pieces(cookie_header@, ';');
    let mut k: usize = 0;
    proof {
        assert(ps.skip(0) =~= ps);
    }
    while k < parts.len()
        invariant
            k <= parts@.len(),
            texts(parts@) == ps,
            ps == pieces(cookie_header@, ';'),
            first_session(ps) == first_session(ps.skip(k as int)),
        decreases parts@.len() - k,
    {
        let found = session_from_piece(parts[k]);
        proof {
            assert(texts(parts@)[k as int] == parts@[k as int]@);
            assert(ps.skip(k as int).len() > 0);
            assert(ps.skip(k as int)[0] == parts@[k as int]@);
            assert(ps.skip(k as int).drop_first() =~= ps.skip(k + 1));
        }
        if found.is_some() {
            proof {
                let q = ps.skip(k as int);
                assert(session_in(q[0]) == found);
                assert(first_session(q) == found);
            }
            return found;
        }
        k = k + 1;
    }
    None
}

/// The value of bytes read as a big-endian number.
pub open spec fn big_endian(bytes: Seq<u8>) -> nat
    decreases bytes.len(),
{
    if bytes.len() == 0 {
        0
    } else {
        big_endian(bytes.drop_last()) * 256 + bytes.last() as nat
    }
}

/// The id a new player gets from random bytes: the first eight read big-endian, taken
/// modulo `MAX_SAFE_JS_INTEGER`, and 1 in place of 0.
pub open spec fn id_from_bytes(bytes: Seq<u8>) -> u64 {
    let v = big_endian(bytes.take(8)) % (MAX_SAFE_JS_INTEGER as nat);
    if v == 0 {
        1
    } else {
        v as u64
    }
}

/// The id a new player gets from the bytes of a random UUID.
pub fn player_id_from_uuid_bytes(bytes: &[u8; 16]) -> (r: u64)
    ensures
        r == id_from_bytes(bytes@),
        1 <= r < MAX_SAFE_JS_INTEGER,
{
    let mut v: u64 = 0;
    let mut k: usize = 0;
    proof {
        assert(bytes@.take(0) =~= Seq::<u8>::empty());
    }
    while k < 8
        invariant
            k <= 8,
            bytes@.len() == 16,
            v as nat == big_endian(bytes@.take(k as int)),
            k == 0 ==> v == 0,
            k == 1 ==> v < 0x100,
            k == 2 ==> v < 0x1_0000,
            k == 3 ==> v < 0x100_0000,
            k == 4 ==> v < 0x1_0000_0000,
            k == 5 ==> v < 0x100_0000_0000,
            k == 6 ==> v < 0x1_0000_0000_0000,
            k == 7 ==> v < 0x100_0000_0000_0000,
        decreases 8 - k,
    {
        let b = bytes[k];
        proof {
            assert(bytes@.take(k + 1).drop_last() =~= bytes@.take(k as int));
        }
        v = v * 256 + b as u64;
        k = k + 1;
    }
    let m = v % MAX_SAFE_JS_INTEGER;
    if m == 0 {
        1
    } else {
        m
    }
}

/// Sixteen random bytes of a new version 4 UUID (`uuid::Uuid::new_v4`): random but for
/// the version nibble (4) and the variant bits (`10`).
#[verifier::external_body]
fn random_uuid_bytes() -> (r: [u8; 16])
    ensures
        r[6] / 16 == 4,
        r[8] / 64 == 2,
{
    *uuid::Uuid::new_v4().as_bytes()
}

/// Sixteen bytes in the shape of a version 4 UUID: version nibble 4, variant bits `10`.
pub open spec fn uuid_v4_shaped(bytes: Seq<u8>) -> bool {
    &&& bytes.len() == 16
    &&& bytes[6] / 16 == 4
    &&& bytes[8] / 64 == 2
}

/// A new player id for a browser session: the id that `id_from_bytes` gives for the
/// bytes of a new random UUID.
pub fn new_player_id() -> (r: u64)
    ensures
        exists|bytes: Seq<u8>| #[trigger] uuid_v4_shaped(bytes) && r == id_from_bytes(bytes),
        1 <= r < MAX_SAFE_JS_INTEGER,
{
    let bytes = random_uuid_bytes();
    let r = player_id_from_uuid_bytes(&bytes);
    proof {
        assert(uuid_v4_shaped(bytes@));
    }
    r
}

/// The cookie that keeps a player's session.
pub open spec fn session_cookie(player_id: u64) -> Seq<char> {
    "poker_session="@ + decimal(player_id as nat) + "; Path=/; HttpOnly; SameSite=Lax"@
}

/// The text of the cookie that keeps a player's session.
pub fn session_cookie_text(player_id: u64) -> (r: String)
    ensures
        r@ == session_cookie(player_id),
{
    let mut s = String::from_str("poker_session=");
    s.append(decimal_text(player_id).as_str());
    s.append("; Path=/; HttpOnly; SameSite=Lax");
    s
}

} // verus!
