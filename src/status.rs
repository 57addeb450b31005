//! The status text the coordinator caches: a JSON object with the game
//! version, the player limit and the message of the day.
use vstd::prelude::*;

verus! {

/// What the status text is built from.
#[derive(Clone, Debug)]
pub struct StatusConfig {
    /// Message of the day, UTF-8.
    pub motd: Vec<u8>,
    /// Player limit; `0` means none.
    pub max_players: u32,
    /// Name of the game version served, UTF-8.
    pub version_name: Vec<u8>,
    /// Protocol number of the game version served.
    pub protocol: u32,
}

/// ASCII digits of `n`, most significant first.
pub open spec fn decimal(n: nat) -> Seq<u8>
    decreases n,
{
    if n < 10 {
        seq![(48 + n) as u8]
    } else {
        decimal(n / 10) + seq![(48 + n % 10) as u8]
    }
}

pub open spec fn hex_digit(d: u8) -> u8 {
    if d < 10 {
        (48 + d) as u8
    } else {
        (87 + d) as u8
    }
}

/// One byte inside a JSON string: quote and backslash escaped, control bytes as `\u00xx`.
pub open spec fn escape_byte(b: u8) -> Seq<u8> {
    if b == 34 {
        seq![92u8, 34u8]
    } else if b == 92 {
        seq![92u8, 92u8]
    } else if b < 32 {
        seq![92u8, 117u8, 48u8, 48u8, hex_digit(b / 16), hex_digit(b % 16)]
    } else {
        seq![b]
    }
}

/// The body of a JSON string holding `s`.
pub open spec fn json_escape(s: Seq<u8>) -> Seq<u8>
    decreases s.len(),
{
    if s.len() == 0 {
        Seq::empty()
    } else {
        json_escape(s.drop_last()) + escape_byte(s.last())
    }
}

/// The bytes of `{"version":{"name":"`.
pub open spec fn lit_open_version() -> Seq<u8> {
    seq![
        123u8, 34u8, 118u8, 101u8, 114u8, 115u8, 105u8, 111u8, 110u8, 34u8, 58u8, 123u8, 34u8,
        110u8, 97u8, 109u8, 101u8, 34u8, 58u8, 34u8,
    ]
}

/// The bytes of `","protocol":`.
pub open spec fn lit_after_name() -> Seq<u8> {
    seq![34u8, 44u8, 34u8, 112u8, 114u8, 111u8, 116u8, 111u8, 99u8, 111u8, 108u8, 34u8, 58u8]
}

/// The bytes of `},"players":{"max":`.
pub open spec fn lit_after_protocol() -> Seq<u8> {
    seq![
        125u8, 44u8, 34u8, 112u8, 108u8, 97u8, 121u8, 101u8, 114u8, 115u8, 34u8, 58u8, 123u8, 34u8,
        109u8, 97u8, 120u8, 34u8, 58u8,
    ]
}

/// The bytes of `,"online":0},"description":{"text":"`.
pub open spec fn lit_after_max() -> Seq<u8> {
    seq![
        44u8, 34u8, 111u8, 110u8, 108u8, 105u8, 110u8, 101u8, 34u8, 58u8, 48u8, 125u8, 44u8, 34u8,
        100u8, 101u8, 115u8, 99u8, 114u8, 105u8, 112u8, 116u8, 105u8, 111u8, 110u8, 34u8, 58u8,
        123u8, 34u8, 116u8, 101u8, 120u8, 116u8, 34u8, 58u8, 34u8,
    ]
}

/// The bytes of `"}}`.
pub open spec fn lit_close() -> Seq<u8> {
    seq![34u8, 125u8, 125u8]
}

/// The status text for `c`.
pub open spec fn status_json(c: StatusConfig) -> Seq<u8> {
    lit_open_version() + json_escape(c.version_name@) + lit_after_name() + decimal(
        c.protocol as nat,
    ) + lit_after_protocol() + decimal(c.max_players as nat) + lit_after_max() + json_escape(
        c.motd@,
    ) + lit_close()
}

fn push_open_version(out: &mut Vec<u8>)
    ensures
        final(out)@ == old(out)@ + lit_open_version(),
{
    out.push(123u8);
    out.push(34u8);
    out.push(118u8);
    out.push(101u8);
    out.push(114u8);
    out.push(115u8);
    out.push(105u8);
    out.push(111u8);
    out.push(110u8);
    out.push(34u8);
    out.push(58u8);
    out.push(123u8);
    out.push(34u8);
    out.push(110u8);
    out.push(97u8);
    out.push(109u8);
    out.push(101u8);
    out.push(34u8);
    out.push(58u8);
    out.push(34u8);
    assert(out@ =~= old(out)@ + lit_open_version());
}

fn push_after_name(out: &mut Vec<u8>)
    ensures
        final(out)@ == old(out)@ + lit_after_name(),
{
    out.push(34u8);
    out.push(44u8);
    out.push(34u8);
    out.push(112u8);
    out.push(114u8);
    out.push(111u8);
    out.push(116u8);
    out.push(111u8);
    out.push(99u8);
    out.push(111u8);
    out.push(108u8);
    out.push(34u8);
    out.push(58u8);
    assert(out@ =~= old(out)@ + lit_after_name());
}

fn push_after_protocol(out: &mut Vec<u8>)
    ensures
        final(out)@ == old(out)@ + lit_after_protocol(),
{
    out.push(125u8);
    out.push(44u8);
    out.push(34u8);
    out.push(112u8);
    out.push(108u8);
    out.push(97u8);
    out.push(121u8);
    out.push(101u8);
    out.push(114u8);
    out.push(115u8);
    out.push(34u8);
    out.push(58u8);
    out.push(123u8);
    out.push(34u8);
    out.push(109u8);
    out.push(97u8);
    out.push(120u8);
    out.push(34u8);
    out.push(58u8);
    assert(out@ =~= old(out)@ + lit_after_protocol());
}

fn push_after_max(out: &mut Vec<u8>)
    ensures
        final(out)@ == old(out)@ + lit_after_max(),
{
    out.push(44u8);
    out.push(34u8);
    out.push(111u8);
    out.push(110u8);
    out.push(108u8);
    out.push(105u8);
    out.push(110u8);
    out.push(101u8);
    out.push(34u8);
    out.push(58u8);
    out.push(48u8);
    out.push(125u8);
    out.push(44u8);
    out.push(34u8);
    out.push(100u8);
    out.push(101u8);
    out.push(115u8);
    out.push(99u8);
    out.push(114u8);
    out.push(105u8);
    out.push(112u8);
    out.push(116u8);
    out.push(105u8);
    out.push(111u8);
    out.push(110u8);
    out.push(34u8);
    out.push(58u8);
    out.push(123u8);
    out.push(34u8);
    out.push(116u8);
    out.push(101u8);
    out.push(120u8);
    out.push(116u8);
    out.push(34u8);
    out.push(58u8);
    out.push(34u8);
    assert(out@ =~= old(out)@ + lit_after_max());
}

fn push_close(out: &mut Vec<u8>)
    ensures
        final(out)@ == old(out)@ + lit_close(),
{
    out.push(34u8);
    out.push(125u8);
    out.push(125u8);
    assert(out@ =~= old(out)@ + lit_close());
}

fn push_decimal(n: u32, out: &mut Vec<u8>)
    ensures
        final(out)@ == old(out)@ + decimal(n as nat),
    decreases n,
{
    if n >= 10 {
        push_decimal(n / 10, out);
    }
    out.push((48 + n % 10) as u8);
    assert(out@ =~= old(out)@ + decimal(n as nat));
}

fn hex(d: u8) -> (r: u8)
    requires
        d < 16,
    ensures
        r == hex_digit(d),
{
    if d < 10 {
        48 + d
    } else {
        87 + d
    }
}

fn push_escaped(s: &[u8], out: &mut Vec<u8>)
    ensures
        final(out)@ == old(out)@ + json_escape(s@),
{
    let mut i: usize = 0;
    assert(s@.take(0) =~= Seq::<u8>::empty());
    assert(out@ =~= old(out)@ + json_escape(s@.take(0)));
    while i < s.len()
        invariant
            i <= s@.len(),
            out@ == old(out)@ + json_escape(s@.take(i as int)),
        decreases s.len() - i,
    {
        let b = s[i];
        let ghost before = out@;
        if b == 34 {
            out.push(92u8);
            out.push(34u8);
        } else if b == 92 {
            out.push(92u8);
            out.push(92u8);
        } else if b < 32 {
            out.push(92u8);
            out.push(117u8);
            out.push(48u8);
            out.push(48u8);
            out.push(hex(b / 16));
            out.push(hex(b % 16));
        } else {
            out.push(b);
        }
        assert(out@ =~= before + escape_byte(b));
        assert(s@.take(i + 1).drop_last() =~= s@.take(i as int));
        i = i + 1;
    }
    assert(s@.take(s@.len() as int) =~= s@);
}

/// Builds the status text for `c`.
pub fn status_text(c: &StatusConfig) -> (r: Vec<u8>)
    ensures
        r@ == status_json(*c),
{
    let mut out: Vec<u8> = Vec::new();
    push_open_version(&mut out);
    push_escaped(c.version_name.as_slice(), &mut out);
    push_after_name(&mut out);
    push_decimal(c.protocol, &mut out);
    push_after_protocol(&mut out);
    push_decimal(c.max_players, &mut out);
    push_after_max(&mut out);
    push_escaped(c.motd.as_slice(), &mut out);
    push_close(&mut out);
    assert(out@ =~= status_json(*c));
    out
}

} // verus!
