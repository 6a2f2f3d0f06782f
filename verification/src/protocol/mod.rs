//! The RakNet packet formats. `wire` holds the byte-level primitives,
//! `offline` the unconnected discovery packets, `online` the connected session
//! packets, and `frame` the reliability frames and datagram framing.

/// Reliability frames and datagram framing (data, ACK, NACK).
pub mod frame;
/// The offline (unconnected) discovery and MTU-negotiation packets.
pub mod offline;
/// The online (connected) session packets carried inside frames.
pub mod online;
/// Byte-level encoding primitives shared by every packet format.
pub mod wire;

use vstd::prelude::*;

verus! {

/// The identifier this server presents in unconnected pongs and replies.
pub const SERVER_ID: i64 = 2747994720109207718;

/// A decoded protocol unit: the packet discriminator and the raw bytes with a
/// read position, as handed to the per-format decoders.
pub struct Packet {
    /// The raw bytes of the datagram.
    pub buffer: Vec<u8>,
    /// The read position inside `buffer`.
    pub position: usize,
    /// The protocol discriminator (8-bit on the wire; online packets use an
    /// extended range).
    pub id: u16,
}

/// The server description sent inside an unconnected pong: a fixed, ordered
/// field list joined by `;`. Field order and separator are part of the wire
/// contract.
#[derive(Clone, Debug)]
pub struct Motd {
    pub name: String,
    pub protocol: u16,
    pub version: String,
    pub player_count: u16,
    pub player_max: u16,
    pub gamemode: String,
    pub server_id: i64,
}

/// The decimal digit `d` as a character.
pub open spec fn spec_digit_char(d: nat) -> char {
    if d == 0 {
        '0'
    } else if d == 1 {
        '1'
    } else if d == 2 {
        '2'
    } else if d == 3 {
        '3'
    } else if d == 4 {
        '4'
    } else if d == 5 {
        '5'
    } else if d == 6 {
        '6'
    } else if d == 7 {
        '7'
    } else if d == 8 {
        '8'
    } else {
        '9'
    }
}

/// The decimal digits of `n`, most significant first, no leading zeros
/// (a single `0` for zero itself).
pub open spec fn spec_dec_digits(n: nat) -> Seq<char>
    decreases n,
{
    if n < 10 {
        seq![spec_digit_char(n)]
    } else {
        spec_dec_digits(n / 10).push(spec_digit_char(n % 10))
    }
}

/// The decimal rendering of a signed value: a `-` sign before the digits of
/// the magnitude when negative.
pub open spec fn spec_i64_dec(n: int) -> Seq<char> {
    if n >= 0 {
        spec_dec_digits(n as nat)
    } else {
        seq!['-'] + spec_dec_digits((-n) as nat)
    }
}

/// The numeric value of a decimal digit character (digits only).
pub open spec fn spec_digit_val(c: char) -> nat {
    if c == '0' {
        0
    } else if c == '1' {
        1
    } else if c == '2' {
        2
    } else if c == '3' {
        3
    } else if c == '4' {
        4
    } else if c == '5' {
        5
    } else if c == '6' {
        6
    } else if c == '7' {
        7
    } else if c == '8' {
        8
    } else {
        9
    }
}

/// The value of a decimal digit string, most significant first.
pub open spec fn spec_parse_dec(s: Seq<char>) -> nat
    decreases s.len(),
{
    if s.len() == 0 {
        0
    } else {
        spec_parse_dec(s.drop_last()) * 10 + spec_digit_val(s.last())
    }
}

/// Parsing inverts rendering: the decimal digits of `n` read back as `n`,
/// so every numeric field of the encoded description is recoverable.
pub proof fn lemma_dec_digits_parse(n: nat)
    ensures
        spec_parse_dec(spec_dec_digits(n)) == n,
    decreases n,
{
    if n < 10 {
        let s = spec_dec_digits(n);
        assert(s == seq![spec_digit_char(n)]);
        assert(s.drop_last() =~= Seq::<char>::empty());
        assert(spec_parse_dec(s.drop_last()) == 0);
        assert(s.last() == spec_digit_char(n));
        assert(spec_digit_val(spec_digit_char(n)) == n);
    } else {
        lemma_dec_digits_parse(n / 10);
        let s = spec_dec_digits(n);
        assert(s == spec_dec_digits(n / 10).push(spec_digit_char(n % 10)));
        assert(s.drop_last() =~= spec_dec_digits(n / 10));
        assert(s.last() == spec_digit_char(n % 10));
        assert(spec_digit_val(spec_digit_char(n % 10)) == n % 10);
        assert((n / 10) * 10 + n % 10 == n) by (nonlinear_arith);
    }
}

/// The exact server-description string: twelve fields in fixed order, each
/// followed by the `;` separator.
pub open spec fn spec_motd_string(m: &Motd) -> Seq<char> {
    seq!['M', 'C', 'P', 'E', ';'] + m.name@ + seq![';'] + spec_dec_digits(m.protocol as nat)
        + seq![';'] + m.version@ + seq![';'] + spec_dec_digits(m.player_count as nat) + seq![';']
        + spec_dec_digits(m.player_max as nat) + seq![';'] + spec_i64_dec(m.server_id as int)
        + seq![';'] + seq!['N', 'e', 't', 'r', 'e', 'x', ';'] + m.gamemode@ + seq![';'] + seq![
        '1',
        ';',
        '1',
        '9',
        '1',
        '3',
        '2',
        ';',
        '1',
        '9',
        '1',
        '3',
        '3',
        ';',
    ]
}

/// The single decimal digit `d` as a string slice.
fn digit_str(d: u8) -> (r: &'static str)
    requires
        d < 10,
    ensures
        r@ == seq![spec_digit_char(d as nat)],
{
    proof {
        reveal_strlit("0");
        reveal_strlit("1");
        reveal_strlit("2");
        reveal_strlit("3");
        reveal_strlit("4");
        reveal_strlit("5");
        reveal_strlit("6");
        reveal_strlit("7");
        reveal_strlit("8");
        reveal_strlit("9");
        assert("0"@ =~= seq!['0']);
        assert("1"@ =~= seq!['1']);
        assert("2"@ =~= seq!['2']);
        assert("3"@ =~= seq!['3']);
        assert("4"@ =~= seq!['4']);
        assert("5"@ =~= seq!['5']);
        assert("6"@ =~= seq!['6']);
        assert("7"@ =~= seq!['7']);
        assert("8"@ =~= seq!['8']);
        assert("9"@ =~= seq!['9']);
    }
    if d == 0 {
        "0"
    } else if d == 1 {
        "1"
    } else if d == 2 {
        "2"
    } else if d == 3 {
        "3"
    } else if d == 4 {
        "4"
    } else if d == 5 {
        "5"
    } else if d == 6 {
        "6"
    } else if d == 7 {
        "7"
    } else if d == 8 {
        "8"
    } else {
        "9"
    }
}

/// Renders `n` in decimal, no leading zeros.
pub fn u64_to_dec_string(n: u64) -> (r: String)
    ensures
        r@ == spec_dec_digits(n as nat),
    decreases n,
{
    if n < 10 {
        digit_str(n as u8).to_owned()
    } else {
        let mut s = u64_to_dec_string(n / 10);
        s.append(digit_str((n % 10) as u8));
        proof {
            assert(spec_dec_digits((n / 10) as nat) + seq![spec_digit_char((n % 10) as nat)]
                =~= spec_dec_digits(n as nat));
        }
        s
    }
}

/// Renders a signed value in decimal, with a leading `-` when negative.
pub fn i64_to_dec_string(n: i64) -> (r: String)
    ensures
        r@ == spec_i64_dec(n as int),
{
    if n >= 0 {
        u64_to_dec_string(n as u64)
    } else {
        let magnitude: u64 = (-(n as i128)) as u64;
        let mut s = "-".to_owned();
        proof {
            reveal_strlit("-");
            assert("-"@ =~= seq!['-']);
        }
        let digits = u64_to_dec_string(magnitude);
        s.append(digits.as_str());
        s
    }
}

impl Motd {
    /// The stock server description.
    pub fn default() -> (r: Self)
        ensures
            r.name@ == "Netrex Server"@,
            r.player_count == 10,
            r.player_max == 100,
            r.protocol == 448,
            r.gamemode@ == "Creative"@,
            r.version@ == "1.17.10"@,
            r.server_id == SERVER_ID,
    {
        Self {
            name: "Netrex Server".to_owned(),
            player_count: 10,
            player_max: 100,
            protocol: 448,
            gamemode: "Creative".to_owned(),
            version: "1.17.10".to_owned(),
            server_id: SERVER_ID,
        }
    }

    /// Joins the twelve description fields with `;`, in the fixed order the
    /// wire contract demands.
    pub fn encode(&self) -> (r: String)
        ensures
            r@ == spec_motd_string(self),
    {
        proof {
            reveal_strlit("MCPE;");
            reveal_strlit(";");
            reveal_strlit("Netrex;");
            reveal_strlit("1;19132;19133;");
            assert("MCPE;"@ =~= seq!['M', 'C', 'P', 'E', ';']);
            assert(";"@ =~= seq![';']);
            assert("Netrex;"@ =~= seq!['N', 'e', 't', 'r', 'e', 'x', ';']);
            assert("1;19132;19133;"@ =~= seq![
                '1',
                ';',
                '1',
                '9',
                '1',
                '3',
                '2',
                ';',
                '1',
                '9',
                '1',
                '3',
                '3',
                ';',
            ]);
        }
        let mut parsed = "MCPE;".to_owned();
        parsed.append(self.name.as_str());
        parsed.append(";");
        let protocol = u64_to_dec_string(self.protocol as u64);
        parsed.append(protocol.as_str());
        parsed.append(";");
        parsed.append(self.version.as_str());
        parsed.append(";");
        let pcount = u64_to_dec_string(self.player_count as u64);
        parsed.append(pcount.as_str());
        parsed.append(";");
        let pmax = u64_to_dec_string(self.player_max as u64);
        parsed.append(pmax.as_str());
        parsed.append(";");
        let server_id = i64_to_dec_string(self.server_id);
        parsed.append(server_id.as_str());
        parsed.append(";");
        parsed.append("Netrex;");
        parsed.append(self.gamemode.as_str());
        parsed.append(";");
        parsed.append("1;19132;19133;");
        proof {
            assert(parsed@ =~= spec_motd_string(self));
        }
        parsed
    }
}

} // verus!
