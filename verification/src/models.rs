use vstd::prelude::*;

verus! {

/// Largest legal latitude, in microdegrees.
pub const MAX_LAT_UDEG: i64 = 90_000_000;

/// Largest legal longitude, in microdegrees.
pub const MAX_LON_UDEG: i64 = 180_000_000;

/// A latitude/longitude pair lies on the WGS-84 grid.
pub open spec fn valid_coords(lat_udeg: i64, lon_udeg: i64) -> bool {
    &&& -MAX_LAT_UDEG <= lat_udeg <= MAX_LAT_UDEG
    &&& -MAX_LON_UDEG <= lon_udeg <= MAX_LON_UDEG
}

/// A repeater record from the station database. Coordinates are WGS-84
/// degrees scaled to microdegrees.
#[derive(Clone, Debug)]
pub struct Repeater {
    pub id: String,
    pub name: String,
    pub lat_udeg: i64,
    pub lon_udeg: i64,
}

impl Repeater {
    /// The record's coordinates lie on the WGS-84 grid.
    pub open spec fn wf(&self) -> bool {
        valid_coords(self.lat_udeg, self.lon_udeg)
    }

    /// The one-byte prefix of this repeater: the first two hex digits of the
    /// identifier, after an optional `0x` marker; 0 if the identifier is
    /// malformed.
    pub fn prefix(&self) -> (p: u8)
        ensures
            p == spec_prefix_of(self.id@),
    {
        prefix_of_id(self.id.as_str())
    }
}

/// A node of a reconstructed path: either a repeater of the database,
/// referenced by index, or a hop through a repeater absent from the database,
/// carrying only its observed one-byte prefix.
#[derive(Clone, Copy, Debug, PartialEq, Eq, Structural)]
pub enum PathNode {
    Known(u32),
    Unknown(u8),
}

/// Value of a single hex digit, upper or lower case.
pub open spec fn spec_hex_val(c: char) -> Option<u8> {
    if c == '0' {
        Some(0u8)
    } else if c == '1' {
        Some(1u8)
    } else if c == '2' {
        Some(2u8)
    } else if c == '3' {
        Some(3u8)
    } else if c == '4' {
        Some(4u8)
    } else if c == '5' {
        Some(5u8)
    } else if c == '6' {
        Some(6u8)
    } else if c == '7' {
        Some(7u8)
    } else if c == '8' {
        Some(8u8)
    } else if c == '9' {
        Some(9u8)
    } else if c == 'a' || c == 'A' {
        Some(10u8)
    } else if c == 'b' || c == 'B' {
        Some(11u8)
    } else if c == 'c' || c == 'C' {
        Some(12u8)
    } else if c == 'd' || c == 'D' {
        Some(13u8)
    } else if c == 'e' || c == 'E' {
        Some(14u8)
    } else if c == 'f' || c == 'F' {
        Some(15u8)
    } else {
        None
    }
}

/// The identifier with one leading `0x` marker removed.
pub open spec fn spec_strip_0x(id: Seq<char>) -> Seq<char> {
    if id.len() >= 2 && id[0] == '0' && id[1] == 'x' {
        id.skip(2)
    } else {
        id
    }
}

/// The one-byte prefix encoded by an identifier: the value of its first two
/// hex digits, or 0 if it has none.
pub open spec fn spec_prefix_of(id: Seq<char>) -> u8 {
    let s = spec_strip_0x(id);
    if s.len() >= 2 {
        match (spec_hex_val(s[0]), spec_hex_val(s[1])) {
            (Some(h), Some(l)) => (h * 16 + l) as u8,
            _ => 0u8,
        }
    } else {
        0u8
    }
}

/// Value of a single hex digit, upper or lower case.
pub fn hex_val(c: char) -> (r: Option<u8>)
    ensures
        r == spec_hex_val(c),
{
    match c {
        '0' => Some(0),
        '1' => Some(1),
        '2' => Some(2),
        '3' => Some(3),
        '4' => Some(4),
        '5' => Some(5),
        '6' => Some(6),
        '7' => Some(7),
        '8' => Some(8),
        '9' => Some(9),
        'a' | 'A' => Some(10),
        'b' | 'B' => Some(11),
        'c' | 'C' => Some(12),
        'd' | 'D' => Some(13),
        'e' | 'E' => Some(14),
        'f' | 'F' => Some(15),
        _ => None,
    }
}

/// The one-byte prefix encoded by an identifier string.
pub fn prefix_of_id(id: &str) -> (p: u8)
    ensures
        p == spec_prefix_of(id@),
{
    let len = id.unicode_len();
    let (c0, c1): (char, char) = if len >= 4 && id.get_char(0) == '0' && id.get_char(1) == 'x' {
        (id.get_char(2), id.get_char(3))
    } else if len >= 2 && !(len >= 2 && id.get_char(0) == '0' && id.get_char(1) == 'x') {
        (id.get_char(0), id.get_char(1))
    } else {
        return 0;
    };
    match (hex_val(c0), hex_val(c1)) {
        (Some(h), Some(l)) => h * 16 + l,
        _ => 0,
    }
}

/// Lower-case hex digit for a value below 16.
pub open spec fn spec_hex_digit_char(v: u8) -> char {
    if v == 0 {
        '0'
    } else if v == 1 {
        '1'
    } else if v == 2 {
        '2'
    } else if v == 3 {
        '3'
    } else if v == 4 {
        '4'
    } else if v == 5 {
        '5'
    } else if v == 6 {
        '6'
    } else if v == 7 {
        '7'
    } else if v == 8 {
        '8'
    } else if v == 9 {
        '9'
    } else if v == 10 {
        'a'
    } else if v == 11 {
        'b'
    } else if v == 12 {
        'c'
    } else if v == 13 {
        'd'
    } else if v == 14 {
        'e'
    } else {
        'f'
    }
}

/// Two lower-case hex digits of a byte.
pub open spec fn spec_hex_byte(p: u8) -> Seq<char> {
    seq![spec_hex_digit_char(p / 16), spec_hex_digit_char(p % 16)]
}

fn hex_digit_str(v: u8) -> (r: &'static str)
    requires
        v < 16,
    ensures
        r@.len() == 1,
        r@[0] == spec_hex_digit_char(v),
{
    proof {
        reveal_strlit("0");
        reveal_strlit("1");
        reveal_strlit("2");
        reveal_strlit("3");
        reveal_strlit("4");
        reveal_strlit("5");
        reveal_strlit("6");
        reveal_strlit("7");
        reveal_strlit("8");
        reveal_strlit("9");
        reveal_strlit("a");
        reveal_strlit("b");
        reveal_strlit("c");
        reveal_strlit("d");
        reveal_strlit("e");
        reveal_strlit("f");
    }
    match v {
        0 => "0",
        1 => "1",
        2 => "2",
        3 => "3",
        4 => "4",
        5 => "5",
        6 => "6",
        7 => "7",
        8 => "8",
        9 => "9",
        10 => "a",
        11 => "b",
        12 => "c",
        13 => "d",
        14 => "e",
        _ => "f",
    }
}

/// Strict lexicographic order of two-character strings.
pub open spec fn spec_hex_lt(a: Seq<char>, b: Seq<char>) -> bool {
    ||| a[0] < b[0]
    ||| (a[0] == b[0] && a[1] < b[1])
}

/// Byte order agrees with the lexicographic order of the two-digit hex
/// spellings: a report sorted by prefix byte is sorted by prefix string.
pub proof fn lemma_hex_byte_order(p1: u8, p2: u8)
    requires
        p1 < p2,
    ensures
        spec_hex_lt(spec_hex_byte(p1), spec_hex_byte(p2)),
{
    assert forall|v1: u8, v2: u8| v1 < v2 < 16 implies spec_hex_digit_char(v1)
        < spec_hex_digit_char(v2) by {}
    vstd::arithmetic::div_mod::lemma_div_is_ordered(p1 as int, p2 as int, 16);
    vstd::arithmetic::div_mod::lemma_fundamental_div_mod(p1 as int, 16);
    vstd::arithmetic::div_mod::lemma_fundamental_div_mod(p2 as int, 16);
}

/// A separator of the prefix list of a packet record: `:`, or the legacy
/// `,`.
pub open spec fn spec_is_sep(c: char) -> bool {
    c == ':' || c == ','
}

/// Value of one prefix token: exactly two hex digits after an optional
/// `0x` marker; anything else is unparsable and becomes 0.
pub open spec fn spec_token_value(tok: Seq<char>) -> u8 {
    let t = spec_strip_0x(tok);
    if t.len() == 2 {
        match (spec_hex_val(t[0]), spec_hex_val(t[1])) {
            (Some(h), Some(l)) => (h * 16 + l) as u8,
            _ => 0u8,
        }
    } else {
        0u8
    }
}

/// The prefix bytes encoded by the remainder of a prefix list, with the
/// token read so far in `cur`: empty tokens are skipped, every other token
/// contributes its value.
pub open spec fn spec_prefix_list_from(s: Seq<char>, cur: Seq<char>) -> Seq<u8>
    decreases s.len(),
{
    if s.len() == 0 {
        if cur.len() > 0 {
            seq![spec_token_value(cur)]
        } else {
            Seq::empty()
        }
    } else if spec_is_sep(s[0]) {
        (if cur.len() > 0 {
            seq![spec_token_value(cur)]
        } else {
            Seq::empty()
        }) + spec_prefix_list_from(s.drop_first(), Seq::empty())
    } else {
        spec_prefix_list_from(s.drop_first(), cur.push(s[0]))
    }
}

/// The prefix bytes encoded by a separator-joined list of hex tokens.
pub open spec fn spec_prefix_list(s: Seq<char>) -> Seq<u8> {
    spec_prefix_list_from(s, Seq::empty())
}

/// Value of one prefix token.
fn token_value(tok: &Vec<char>) -> (v: u8)
    ensures
        v == spec_token_value(tok@),
{
    let (c0, c1): (char, char) = if tok.len() >= 2 && tok[0] == '0' && tok[1] == 'x' {
        if tok.len() == 4 {
            (tok[2], tok[3])
        } else {
            return 0;
        }
    } else {
        if tok.len() == 2 {
            (tok[0], tok[1])
        } else {
            return 0;
        }
    };
    match (hex_val(c0), hex_val(c1)) {
        (Some(h), Some(l)) => h * 16 + l,
        _ => 0,
    }
}

/// Parses the `repeater_prefixes` field of a packet record: two-hex-digit
/// tokens joined by `:` (or the legacy `,`), each with an optional `0x`
/// marker; empty tokens are skipped and unparsable tokens become 0.
pub fn parse_prefix_list(s: &str) -> (r: Vec<u8>)
    ensures
        r@ == spec_prefix_list(s@),
{
    let n = s.unicode_len();
    let mut r: Vec<u8> = Vec::new();
    let mut cur: Vec<char> = Vec::new();
    let mut i: usize = 0;
    proof {
        assert(s@.skip(0) =~= s@);
        assert(r@ + spec_prefix_list_from(s@, cur@) =~= spec_prefix_list_from(s@, cur@));
    }
    while i < n
        invariant
            n == s@.len(),
            i <= n,
            spec_prefix_list(s@) == r@ + spec_prefix_list_from(s@.skip(i as int), cur@),
        decreases n - i,
    {
        let c = s.get_char(i);
        proof {
            assert(s@.skip(i as int)[0] == s@[i as int]);
            assert(s@.skip(i as int).drop_first() =~= s@.skip(i + 1));
        }
        if c == ':' || c == ',' {
            if cur.len() > 0 {
                let v = token_value(&cur);
                let ghost r_old = r@;
                let ghost cur_old = cur@;
                r.push(v);
                cur = Vec::new();
                proof {
                    assert(spec_prefix_list_from(s@.skip(i as int), cur_old) =~= seq![v]
                        + spec_prefix_list_from(s@.skip(i + 1), Seq::empty()));
                    assert(r_old + (seq![v] + spec_prefix_list_from(s@.skip(i + 1), Seq::empty()))
                        =~= r@ + spec_prefix_list_from(s@.skip(i + 1), cur@));
                }
            } else {
                proof {
                    assert(spec_prefix_list_from(s@.skip(i as int), cur@)
                        == Seq::<u8>::empty() + spec_prefix_list_from(s@.skip(i + 1), Seq::empty()));
                    assert(Seq::<u8>::empty() + spec_prefix_list_from(s@.skip(i + 1), Seq::empty())
                        =~= spec_prefix_list_from(s@.skip(i + 1), Seq::empty()));
                    assert(cur@ =~= Seq::<char>::empty());
                }
            }
        } else {
            let ghost cur_old = cur@;
            cur.push(c);
            proof {
                assert(cur@ =~= cur_old.push(s@[i as int]));
            }
        }
        i += 1;
    }
    proof {
        assert(s@.skip(n as int) =~= Seq::<char>::empty());
    }
    if cur.len() > 0 {
        let v = token_value(&cur);
        r.push(v);
    }
    r
}

/// The two-digit lower-case hex spelling of a byte.
pub fn hex_byte_string(p: u8) -> (s: String)
    ensures
        s@ == spec_hex_byte(p),
{
    let hi = p / 16;
    let lo = p % 16;
    let mut s = String::from_str(hex_digit_str(hi));
    s.append(hex_digit_str(lo));
    proof {
        assert(s@ =~= spec_hex_byte(p));
    }
    s
}

} // verus!
