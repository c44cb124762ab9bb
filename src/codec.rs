use vstd::prelude::*;
use vstd::arithmetic::div_mod::{lemma_div_denominator, lemma_fundamental_div_mod};

verus! {

/// Largest key or value length that a record can frame (a 64-bit length prefix).
pub open spec fn max_field_len() -> nat {
    0xffff_ffff_ffff_ffff
}

/// One log record, as it is kept in a segment.
pub enum Command {
    Put { key: Vec<u8>, value: Vec<u8> },
    Remove { key: Vec<u8> },
}

/// The mathematical value of a record.
pub enum CommandView {
    Put { key: Seq<u8>, value: Seq<u8> },
    Remove { key: Seq<u8> },
}

impl View for Command {
    type V = CommandView;

    open spec fn view(&self) -> CommandView {
        match self {
            Command::Put { key, value } => CommandView::Put { key: key@, value: value@ },
            Command::Remove { key } => CommandView::Remove { key: key@ },
        }
    }
}

impl CommandView {
    pub open spec fn key(self) -> Seq<u8> {
        match self {
            CommandView::Put { key, .. } => key,
            CommandView::Remove { key } => key,
        }
    }

    /// Every field fits its 64-bit length prefix.
    pub open spec fn encodable(self) -> bool {
        match self {
            CommandView::Put { key, value } => key.len() <= max_field_len() && value.len()
                <= max_field_len(),
            CommandView::Remove { key } => key.len() <= max_field_len(),
        }
    }
}

pub const TAG_PUT: u8 = 0;

pub const TAG_REMOVE: u8 = 1;

/// Eight little-endian bytes of `n`.
pub open spec fn le64(n: nat) -> Seq<u8> {
    seq![
        (n % 256) as u8,
        ((n / 0x100) % 256) as u8,
        ((n / 0x1_0000) % 256) as u8,
        ((n / 0x100_0000) % 256) as u8,
        ((n / 0x1_0000_0000) % 256) as u8,
        ((n / 0x100_0000_0000) % 256) as u8,
        ((n / 0x1_0000_0000_0000) % 256) as u8,
        ((n / 0x100_0000_0000_0000) % 256) as u8,
    ]
}

/// The number held by eight little-endian bytes.
pub open spec fn read_le64(s: Seq<u8>) -> nat {
    (s[0] as nat + 256 * (s[1] as nat + 256 * (s[2] as nat + 256 * (s[3] as nat + 256 * (
    s[4] as nat + 256 * (s[5] as nat + 256 * (s[6] as nat + 256 * (s[7] as nat)))))))) as nat
}

/// The bytes of one record: a tag, then each field prefixed by its length.
pub open spec fn encoding(c: CommandView) -> Seq<u8> {
    match c {
        CommandView::Put { key, value } => seq![TAG_PUT] + le64(key.len()) + key + le64(
            value.len(),
        ) + value,
        CommandView::Remove { key } => seq![TAG_REMOVE] + le64(key.len()) + key,
    }
}

/// The record at the front of `s` and the number of bytes it takes, if `s` starts
/// with a whole, well-formed record.
pub open spec fn parse(s: Seq<u8>) -> Option<(CommandView, nat)> {
    if s.len() < 9 {
        None
    } else {
        let klen = read_le64(s.subrange(1, 9)) as int;
        let kend = 9 + klen;
        if s[0] == TAG_REMOVE {
            if kend <= s.len() {
                Some((CommandView::Remove { key: s.subrange(9, kend) }, kend as nat))
            } else {
                None
            }
        } else if s[0] == TAG_PUT {
            if kend + 8 <= s.len() {
                let vlen = read_le64(s.subrange(kend, kend + 8)) as int;
                let vend = kend + 8 + vlen;
                if vend <= s.len() {
                    Some(
                        (
                            CommandView::Put {
                                key: s.subrange(9, kend),
                                value: s.subrange(kend + 8, vend),
                            },
                            vend as nat,
                        ),
                    )
                } else {
                    None
                }
            } else {
                None
            }
        } else {
            None
        }
    }
}

pub proof fn lemma_le64_round_trip(n: nat)
    requires
        n <= max_field_len(),
    ensures
        read_le64(le64(n)) == n,
        le64(n).len() == 8,
{
    let n1 = n / 256;
    let n2 = n1 / 256;
    let n3 = n2 / 256;
    let n4 = n3 / 256;
    let n5 = n4 / 256;
    let n6 = n5 / 256;
    let n7 = n6 / 256;
    lemma_fundamental_div_mod(n as int, 256);
    lemma_fundamental_div_mod(n1 as int, 256);
    lemma_fundamental_div_mod(n2 as int, 256);
    lemma_fundamental_div_mod(n3 as int, 256);
    lemma_fundamental_div_mod(n4 as int, 256);
    lemma_fundamental_div_mod(n5 as int, 256);
    lemma_fundamental_div_mod(n6 as int, 256);
    lemma_div_chain(n);
    assert(n7 < 256);
}

/// Dividing by 256 again is dividing by the next power of 256.
proof fn lemma_div_chain(n: nat)
    ensures
        n / 0x100 / 256 == n / 0x1_0000,
        n / 0x1_0000 / 256 == n / 0x100_0000,
        n / 0x100_0000 / 256 == n / 0x1_0000_0000,
        n / 0x1_0000_0000 / 256 == n / 0x100_0000_0000,
        n / 0x100_0000_0000 / 256 == n / 0x1_0000_0000_0000,
        n / 0x1_0000_0000_0000 / 256 == n / 0x100_0000_0000_0000,
{
    lemma_div_denominator(n as int, 0x100, 256);
    lemma_div_denominator(n as int, 0x1_0000, 256);
    lemma_div_denominator(n as int, 0x100_0000, 256);
    lemma_div_denominator(n as int, 0x1_0000_0000, 256);
    lemma_div_denominator(n as int, 0x100_0000_0000, 256);
    lemma_div_denominator(n as int, 0x1_0000_0000_0000, 256);
}

/// Decoding the encoding of a record, followed by anything, gives back that record
/// and the exact number of bytes it took.
pub proof fn lemma_parse_encoding(c: CommandView, rest: Seq<u8>)
    requires
        c.encodable(),
    ensures
        parse(encoding(c) + rest) == Some((c, encoding(c).len())),
        encoding(c).len() >= 9,
{
    let s = encoding(c) + rest;
    match c {
        CommandView::Put { key, value } => {
            lemma_le64_round_trip(key.len());
            lemma_le64_round_trip(value.len());
            let kend: int = 9 + key.len() as int;
            assert(s.subrange(1, 9) =~= le64(key.len()));
            assert(s.subrange(9, kend) =~= key);
            assert(s.subrange(kend, kend + 8) =~= le64(value.len()));
            assert(s.subrange(kend + 8, kend + 8 + value.len()) =~= value);
        },
        CommandView::Remove { key } => {
            lemma_le64_round_trip(key.len());
            assert(s.subrange(1, 9) =~= le64(key.len()));
            assert(s.subrange(9, 9 + key.len() as int) =~= key);
        },
    }
}

/// A record never takes zero bytes, so a decoder always moves forward.
pub proof fn lemma_parse_advances(s: Seq<u8>)
    ensures
        parse(s) matches Some((_, n)) ==> 9 <= n <= s.len(),
{
}

/// The malformed bytes that a decoder met.
#[derive(Debug, Clone, Copy, PartialEq, Eq, Structural)]
pub struct CorruptRecord {
    pub offset: u64,
}

fn push_le64(out: &mut Vec<u8>, n: u64)
    ensures
        final(out)@ == old(out)@ + le64(n as nat),
{
    let n1: u64 = n / 256;
    let n2: u64 = n1 / 256;
    let n3: u64 = n2 / 256;
    let n4: u64 = n3 / 256;
    let n5: u64 = n4 / 256;
    let n6: u64 = n5 / 256;
    let n7: u64 = n6 / 256;
    out.push((n % 256) as u8);
    out.push((n1 % 256) as u8);
    out.push((n2 % 256) as u8);
    out.push((n3 % 256) as u8);
    out.push((n4 % 256) as u8);
    out.push((n5 % 256) as u8);
    out.push((n6 % 256) as u8);
    out.push((n7 % 256) as u8);
    proof {
        lemma_div_chain(n as nat);
        assert(final(out)@ =~= old(out)@ + le64(n as nat));
    }
}

fn append_bytes(out: &mut Vec<u8>, b: &Vec<u8>)
    ensures
        final(out)@ == old(out)@ + b@,
{
    let mut i: usize = 0;
    while i < b.len()
        invariant
            i <= b.len(),
            out@ == old(out)@ + b@.subrange(0, i as int),
        decreases b.len() - i,
    {
        out.push(b[i]);
        i = i + 1;
        assert(out@ =~= old(out)@ + b@.subrange(0, i as int));
    }
    assert(b@.subrange(0, b.len() as int) =~= b@);
}

/// Appends the framed bytes of `cmd` to `out`.
pub fn encode_into(out: &mut Vec<u8>, cmd: &Command)
    requires
        cmd@.encodable(),
    ensures
        final(out)@ == old(out)@ + encoding(cmd@),
{
    match cmd {
        Command::Put { key, value } => {
            out.push(TAG_PUT);
            push_le64(out, key.len() as u64);
            append_bytes(out, key);
            push_le64(out, value.len() as u64);
            append_bytes(out, value);
        },
        Command::Remove { key } => {
            out.push(TAG_REMOVE);
            push_le64(out, key.len() as u64);
            append_bytes(out, key);
        },
    }
    assert(final(out)@ =~= old(out)@ + encoding(cmd@));
}

/// The framed bytes of `cmd`.
pub fn encode(cmd: &Command) -> (r: Vec<u8>)
    requires
        cmd@.encodable(),
    ensures
        r@ == encoding(cmd@),
{
    let mut out: Vec<u8> = Vec::new();
    encode_into(&mut out, cmd);
    assert(out@ =~= encoding(cmd@));
    out
}

fn copy_range(b: &Vec<u8>, lo: usize, hi: usize) -> (r: Vec<u8>)
    requires
        lo <= hi <= b.len(),
    ensures
        r@ == b@.subrange(lo as int, hi as int),
{
    let mut out: Vec<u8> = Vec::new();
    let mut i: usize = lo;
    while i < hi
        invariant
            lo <= i <= hi <= b.len(),
            out@ == b@.subrange(lo as int, i as int),
        decreases hi - i,
    {
        out.push(b[i]);
        i = i + 1;
        assert(out@ =~= b@.subrange(lo as int, i as int));
    }
    out
}

fn read_len(b: &Vec<u8>, at: usize) -> (r: u64)
    requires
        at + 8 <= b.len(),
    ensures
        r as nat == read_le64(b@.subrange(at as int, at + 8)),
{
    let s = Ghost(b@.subrange(at as int, at + 8));
    assert(s@[0] == b@[at as int] && s@[1] == b@[at + 1] && s@[2] == b@[at + 2] && s@[3]
        == b@[at + 3] && s@[4] == b@[at + 4] && s@[5] == b@[at + 5] && s@[6] == b@[at + 6]
        && s@[7] == b@[at + 7]);
    b[at] as u64 + 256 * (b[at + 1] as u64 + 256 * (b[at + 2] as u64 + 256 * (b[at + 3] as u64
        + 256 * (b[at + 4] as u64 + 256 * (b[at + 5] as u64 + 256 * (b[at + 6] as u64 + 256 * (
    b[at + 7] as u64)))))))
}

/// Decodes the record that starts at `start` and ends by `end`, returning it
/// with the offset just past it.
pub fn decode_at(b: &Vec<u8>, start: usize, end: usize) -> (res: Result<(Command, usize), CorruptRecord>)
    requires
        start <= end <= b.len(),
    ensures
        match parse(b@.subrange(start as int, end as int)) {
            Some((c, n)) => res matches Ok((cmd, next)) && cmd@ == c && next == start + n,
            None => res == Err::<(Command, usize), CorruptRecord>(
                CorruptRecord { offset: start as u64 },
            ),
        },
{
    let ghost s = b@.subrange(start as int, end as int);
    if end - start < 9 {
        return Err(CorruptRecord { offset: start as u64 });
    }
    let tag = b[start];
    let klen = read_len(b, start + 1);
    assert(b@.subrange(start + 1, start + 9) =~= s.subrange(1, 9));
    if tag != TAG_REMOVE && tag != TAG_PUT {
        return Err(CorruptRecord { offset: start as u64 });
    }
    if klen > (end - start - 9) as u64 {
        return Err(CorruptRecord { offset: start as u64 });
    }
    let kend: usize = start + 9 + klen as usize;
    let key = copy_range(b, start + 9, kend);
    assert(key@ =~= s.subrange(9, 9 + klen));
    if tag == TAG_REMOVE {
        return Ok((Command::Remove { key }, kend));
    }
    if end - kend < 8 {
        return Err(CorruptRecord { offset: start as u64 });
    }
    let vlen = read_len(b, kend);
    assert(b@.subrange(kend as int, kend + 8) =~= s.subrange(9 + klen, 9 + klen + 8));
    if vlen > (end - kend - 8) as u64 {
        return Err(CorruptRecord { offset: start as u64 });
    }
    let vend: usize = kend + 8 + vlen as usize;
    let value = copy_range(b, kend + 8, vend);
    assert(value@ =~= s.subrange(9 + klen + 8, 9 + klen + 8 + vlen));
    Ok((Command::Put { key, value }, vend))
}

} // verus!
