//! A decoder for LZ4 blocks.
//!
//! Compressed clusters hold LZ4 blocks, not LZ4 frames. A cluster may decode to more than the
//! reader wants, so decoding is partial: it stops as soon as the output buffer is full. A block may
//! also end before that, behind the literals or behind the match of its last sequence.

use crate::bytes;
use crate::errnos::{Errno, PosixResult};
use vstd::prelude::*;

verus! {

/// The byte that announces another length byte.
pub const LENGTH_EXTENSION: u8 = 0xff;

/// The largest length that a token itself can hold.
pub const TOKEN_LENGTH_MAX: usize = 0xf;

/// The shortest match.
pub const MIN_MATCH: usize = 4;

/// The length that the bytes from `ip` on add to `base`, and where they end. Every byte adds its
/// value, and the first byte other than `0xff` is the last. There is none if the input ends
/// first, or if the sum is beyond the lengths that the machine knows.
pub open spec fn length_at(src: Seq<u8>, ip: int, base: int) -> Option<(int, int)>
    decreases src.len() - ip,
{
    if ip < 0 || ip >= src.len() || base + src[ip] > usize::MAX {
        None
    } else if src[ip] != LENGTH_EXTENSION {
        Some((base + src[ip], ip + 1))
    } else {
        length_at(src, ip + 1, base + src[ip])
    }
}

/// How far the bytes from `ip` on are read for a length: up to the last of them, or to where the
/// input ends or the sum goes beyond the lengths that the machine knows.
pub open spec fn length_stop(src: Seq<u8>, ip: int, base: int) -> int
    decreases src.len() - ip,
{
    if ip < 0 || ip >= src.len() {
        ip
    } else if src[ip] != LENGTH_EXTENSION || base + src[ip] > usize::MAX {
        ip + 1
    } else {
        length_stop(src, ip + 1, base + src[ip])
    }
}

/// `out` with `n` more bytes, each a copy of the byte `offset` places before it. Source and target
/// may overlap: then the last `offset` bytes repeat.
pub open spec fn extended(out: Seq<u8>, offset: int, n: nat) -> Seq<u8>
    decreases n,
{
    if n == 0 {
        out
    } else {
        let before = extended(out, offset, (n - 1) as nat);
        before.push(before[before.len() - offset])
    }
}

/// What decoding has come to: the bytes produced, and whether the block was found corrupt.
pub struct Decoded {
    pub out: Seq<u8>,
    pub corrupt: bool,
}

/// A length of a token: the four bits `nibble`, and further bytes from `ip` on where they are all
/// set; `bias` is added.
pub open spec fn token_length(src: Seq<u8>, ip: int, nibble: int, bias: int) -> Option<(int, int)> {
    if nibble == TOKEN_LENGTH_MAX {
        length_at(src, ip, nibble + bias)
    } else {
        Some((nibble + bias, ip))
    }
}

/// Length bytes end within the input and only add to a length.
pub proof fn lemma_length_at(src: Seq<u8>, ip: int, base: int)
    requires
        0 <= ip,
    ensures
        length_at(src, ip, base) matches Some((len, end)) ==> base <= len <= usize::MAX && ip < end
            <= src.len(),
    decreases src.len() - ip,
{
    if ip < src.len() && src[ip] == LENGTH_EXTENSION {
        lemma_length_at(src, ip + 1, base + src[ip]);
    }
}

/// A length of a token ends within the input and is no less than its bias.
pub proof fn lemma_token_length(src: Seq<u8>, ip: int, nibble: int, bias: int)
    requires
        0 <= ip <= src.len(),
        0 <= nibble,
    ensures
        token_length(src, ip, nibble, bias) matches Some((len, end)) ==> bias <= len && ip <= end
            <= src.len(),
{
    lemma_length_at(src, ip, nibble + bias);
}

/// Where half of a sequence leads: decoding is over, or goes on at `ip` behind what `out` holds.
pub enum Step {
    Stop(Decoded),
    On { ip: int, out: Seq<u8> },
}

/// The first half of the sequence at `ip`: a token, and literals that are copied from the input.
/// Of the literals as many are taken as there is room for. Where the input ends with them, so does
/// the block.
pub open spec fn literals(src: Seq<u8>, ip: int, out: Seq<u8>, cap: nat) -> Step {
    match token_length(src, ip + 1, src[ip] as int / 16, 0) {
        None => Step::Stop(Decoded { out, corrupt: true }),
        Some((len, lit)) => if len > src.len() - lit {
            Step::Stop(Decoded { out, corrupt: true })
        } else {
            let out1 = out + src.subrange(lit, lit + bytes::least(len, cap - out.len()));
            if out1.len() == cap || lit + len == src.len() {
                Step::Stop(Decoded { out: out1, corrupt: false })
            } else {
                Step::On { ip: lit + len, out: out1 }
            }
        },
    }
}

/// The second half of a sequence: a match that is copied from the output, which is a two-byte
/// offset back and a length of at least four.
pub open spec fn matched(src: Seq<u8>, token: u8, at: int, out: Seq<u8>, cap: nat) -> Step {
    if src.len() - at < 2 {
        Step::Stop(Decoded { out, corrupt: true })
    } else {
        let offset = bytes::le16(src, at);
        if offset == 0 || offset > out.len() {
            Step::Stop(Decoded { out, corrupt: true })
        } else {
            match token_length(src, at + 2, token as int % 16, MIN_MATCH as int) {
                None => Step::Stop(Decoded { out, corrupt: true }),
                Some((len, next)) => Step::On {
                    ip: next,
                    out: extended(
                        out,
                        offset as int,
                        bytes::least(len, cap - out.len()) as nat,
                    ),
                },
            }
        }
    }
}

/// Both halves of a sequence go forward in the input.
pub proof fn lemma_sequence_forward(src: Seq<u8>, ip: int, out: Seq<u8>, cap: nat)
    requires
        0 <= ip < src.len(),
    ensures
        literals(src, ip, out, cap) matches Step::On { ip: at, out: out1 } ==> {
            &&& ip < at <= src.len()
            &&& matched(src, src[ip], at, out1, cap) matches Step::On { ip: next, out: out2 } ==> at
                < next <= src.len()
        },
{
    lemma_token_length(src, ip + 1, src[ip] as int / 16, 0);
    if let Step::On { ip: at, out: out1 } = literals(src, ip, out, cap) {
        if src.len() - at >= 2 {
            lemma_token_length(src, at + 2, src[ip] as int % 16, MIN_MATCH as int);
        }
    }
}

/// Decodes the rest of a block from `ip` on, behind what `out` already holds, until there are
/// `cap` bytes or the block ends. An input without a single token is no block.
pub open spec fn decode_from(src: Seq<u8>, ip: int, out: Seq<u8>, cap: nat) -> Decoded
    decreases src.len() - ip,
{
    if out.len() >= cap {
        Decoded { out, corrupt: false }
    } else if ip < 0 || ip >= src.len() {
        Decoded { out, corrupt: ip <= 0 }
    } else {
        match literals(src, ip, out, cap) {
            Step::Stop(d) => d,
            Step::On { ip: at, out: out1 } => match matched(src, src[ip], at, out1, cap) {
                Step::Stop(d) => d,
                Step::On { ip: next, out: out2 } => {
                    proof {
                        lemma_sequence_forward(src, ip, out, cap);
                    }
                    decode_from(src, next, out2, cap)
                },
            },
        }
    }
}

/// Decodes a block until there are `cap` bytes or it ends.
pub open spec fn decode(src: Seq<u8>, cap: nat) -> Decoded {
    decode_from(src, 0, Seq::empty(), cap)
}

/// Reads a length that goes on behind its token.
pub fn read_length(src: &[u8], ip: &mut usize, base: usize) -> (r: PosixResult<usize>)
    ensures
        *final(ip) == length_stop(src@, *old(ip) as int, base as int),
        match length_at(src@, *old(ip) as int, base as int) {
            Some((len, end)) => {
                &&& r == Ok::<usize, Errno>(len as usize)
                &&& base <= len <= usize::MAX
                &&& *old(ip) < end == *final(ip) <= src.len()
            },
            None => r == Err::<usize, Errno>(Errno::EUCLEAN),
        },
{
    let mut len: usize = base;
    proof {
        lemma_length_at(src@, *ip as int, base as int);
    }
    loop
        invariant
            length_stop(src@, *ip as int, len as int) == length_stop(
                src@,
                *old(ip) as int,
                base as int,
            ),
            length_at(src@, *ip as int, len as int) == length_at(
                src@,
                *old(ip) as int,
                base as int,
            ),
            length_at(src@, *old(ip) as int, base as int) matches Some((len, end)) ==> base <= len
                <= usize::MAX && *old(ip) < end <= src.len(),
        decreases src.len() - *ip,
    {
        if *ip >= src.len() {
            return Err(Errno::EUCLEAN);
        }
        let byte: u8 = src[*ip];
        *ip = *ip + 1;
        match len.checked_add(byte as usize) {
            None => {
                return Err(Errno::EUCLEAN);
            },
            Some(sum) => {
                len = sum;
            },
        }
        if byte != LENGTH_EXTENSION {
            return Ok(len);
        }
    }
}

/// Copies `n` bytes of the input to `op`.
fn copy_literals(src: &[u8], ip: usize, dst: &mut [u8], op: usize, n: usize)
    requires
        ip + n <= src.len(),
        op + n <= old(dst)@.len(),
        old(dst)@.len() <= usize::MAX,
    ensures
        final(dst)@ == old(dst)@.take(op as int) + src@.subrange(ip as int, ip + n) + old(
            dst,
        )@.skip(op + n),
{
    let mut i: usize = 0;
    while i < n
        invariant
            i <= n,
            ip + n <= src.len(),
            op + n <= old(dst)@.len() <= usize::MAX,
            dst@ =~= old(dst)@.take(op as int) + src@.subrange(ip as int, ip + i) + old(
                dst,
            )@.skip(op + i),
        decreases n - i,
    {
        dst[op + i] = src[ip + i];
        i = i + 1;
    }
}

/// `extended` keeps what was there, and adds as many bytes as asked for.
proof fn lemma_extended_len(out: Seq<u8>, offset: int, n: nat)
    ensures
        extended(out, offset, n).len() == out.len() + n,
        extended(out, offset, n).take(out.len() as int) == out,
    decreases n,
{
    if n > 0 {
        lemma_extended_len(out, offset, (n - 1) as nat);
        assert(extended(out, offset, n).take(out.len() as int) =~= extended(
            out,
            offset,
            (n - 1) as nat,
        ).take(out.len() as int));
    } else {
        assert(out.take(out.len() as int) =~= out);
    }
}

/// Copies `n` bytes to `op`, each from `offset` places before it.
fn copy_match(dst: &mut [u8], op: usize, offset: usize, n: usize)
    requires
        1 <= offset <= op,
        op + n <= old(dst)@.len(),
        old(dst)@.len() <= usize::MAX,
    ensures
        final(dst)@ == extended(old(dst)@.take(op as int), offset as int, n as nat) + old(
            dst,
        )@.skip(op + n),
{
    let mut i: usize = 0;
    let ghost head = dst@.take(op as int);
    assert(dst@ =~= head + dst@.skip(op as int));
    while i < n
        invariant
            i <= n,
            1 <= offset <= op,
            op + n <= old(dst)@.len() <= usize::MAX,
            head == old(dst)@.take(op as int),
            dst@ == extended(head, offset as int, i as nat) + old(dst)@.skip(op + i),
        decreases n - i,
    {
        proof {
            lemma_extended_len(head, offset as int, i as nat);
            lemma_extended_len(head, offset as int, (i + 1) as nat);
        }
        let ghost before = dst@;
        dst[op + i] = dst[op + i - offset];
        i = i + 1;
        assert(dst@ =~= extended(head, offset as int, i as nat) + old(dst)@.skip(op + i)) by {
            assert(old(dst)@.skip(op + i - 1).skip(1) =~= old(dst)@.skip(op + i));
        }
    }
}

/// Copies the literals of the sequence at `ip` to `op`, as many as there is room for. Says where
/// the sequence goes on in the input, and where in the output.
fn take_literals(src: &[u8], ip: usize, dst: &mut [u8], op: usize) -> (r: PosixResult<
    (usize, usize),
>)
    requires
        ip < src.len(),
        op < old(dst)@.len() <= usize::MAX,
    ensures
        ({
            let out = old(dst)@.take(op as int);
            let cap = old(dst)@.len();
            let step = literals(src@, ip as int, out, cap);
            match r {
                Err(e) => {
                    &&& e == Errno::EUCLEAN
                    &&& step == Step::Stop(Decoded { out, corrupt: true })
                    &&& final(dst)@ == old(dst)@
                },
                Ok((at, end)) => {
                    let out1 = final(dst)@.take(end as int);
                    &&& ip < at <= src.len()
                    &&& op <= end <= cap
                    &&& final(dst)@.len() == cap
                    &&& final(dst)@ == out1 + old(dst)@.skip(end as int)
                    &&& step == if end == cap || at == src.len() {
                        Step::Stop(Decoded { out: out1, corrupt: false })
                    } else {
                        Step::On { ip: at as int, out: out1 }
                    }
                },
            }
        }),
{
    let mut at: usize = ip + 1;
    let mut len: usize = src[ip] as usize / 16;
    if len == TOKEN_LENGTH_MAX {
        len = read_length(src, &mut at, len)?;
    }
    if len > src.len() - at {
        return Err(Errno::EUCLEAN);
    }
    let room: usize = dst.len() - op;
    let n: usize = if len <= room {
        len
    } else {
        room
    };
    let ghost out = dst@.take(op as int);
    copy_literals(src, at, dst, op, n);
    assert(dst@.take(op + n) =~= out + src@.subrange(at as int, at + n));
    Ok((at + len, op + n))
}

/// Copies the match at `at`, behind the literals of a sequence with the token `token`, to `op`, as
/// much of it as there is room for. Says where the input goes on, and where the output.
fn take_match(src: &[u8], token: u8, at: usize, dst: &mut [u8], op: usize) -> (r: PosixResult<
    (usize, usize),
>)
    requires
        at <= src.len(),
        op < old(dst)@.len() <= usize::MAX,
    ensures
        ({
            let out = old(dst)@.take(op as int);
            let cap = old(dst)@.len();
            let step = matched(src@, token, at as int, out, cap);
            match r {
                Err(e) => {
                    &&& e == Errno::EUCLEAN
                    &&& step == Step::Stop(Decoded { out, corrupt: true })
                    &&& final(dst)@ == old(dst)@
                },
                Ok((next, end)) => {
                    let out2 = final(dst)@.take(end as int);
                    &&& at < next <= src.len()
                    &&& op <= end <= cap
                    &&& final(dst)@.len() == cap
                    &&& final(dst)@ == out2 + old(dst)@.skip(end as int)
                    &&& step == Step::On { ip: next as int, out: out2 }
                },
            }
        }),
{
    if src.len() - at < 2 {
        return Err(Errno::EUCLEAN);
    }
    let offset: usize = bytes::read_le16(src, at) as usize;
    if offset == 0 || offset > op {
        return Err(Errno::EUCLEAN);
    }
    let mut next: usize = at + 2;
    let mut len: usize = token as usize % 16 + MIN_MATCH;
    if token as usize % 16 == TOKEN_LENGTH_MAX {
        len = read_length(src, &mut next, len)?;
    }
    let room: usize = dst.len() - op;
    let n: usize = if len <= room {
        len
    } else {
        room
    };
    let ghost out = dst@.take(op as int);
    copy_match(dst, op, offset, n);
    proof {
        lemma_extended_len(out, offset as int, n as nat);
        assert(dst@.take(op + n) =~= extended(out, offset as int, n as nat));
    }
    Ok((next, op + n))
}

/// Decodes an LZ4 block into `dst` and returns how many bytes were produced: all of `dst`, or fewer
/// where the block ends before.
pub fn decompress_partial(src: &[u8], dst: &mut [u8]) -> (r: PosixResult<usize>)
    ensures
        ({
            let d = decode(src@, old(dst)@.len());
            &&& final(dst)@ == d.out + old(dst)@.skip(d.out.len() as int)
            &&& r == if d.corrupt {
                Err::<usize, Errno>(Errno::EUCLEAN)
            } else {
                Ok::<usize, Errno>(d.out.len() as usize)
            }
            &&& d.out.len() <= old(dst)@.len()
        }),
{
    let mut ip: usize = 0;
    let mut op: usize = 0;
    let cap: usize = dst.len();
    let ghost orig = dst@;
    assert(dst@.take(0) =~= Seq::<u8>::empty());
    assert(dst@ =~= dst@.take(0) + orig.skip(0));
    loop
        invariant
            cap == orig.len(),
            orig == old(dst)@,
            ip <= src.len(),
            op <= cap,
            dst@.len() == cap,
            dst@ == dst@.take(op as int) + orig.skip(op as int),
            decode(src@, cap as nat) == decode_from(
                src@,
                ip as int,
                dst@.take(op as int),
                cap as nat,
            ),
        decreases src.len() - ip,
    {
        if op == cap {
            return Ok(op);
        }
        if ip >= src.len() {
            return if ip == 0 {
                Err(Errno::EUCLEAN)
            } else {
                Ok(op)
            };
        }
        let token: u8 = src[ip];
        let ghost had = dst@;
        let (at, end) = take_literals(src, ip, dst, op)?;
        proof {
            assert(had.skip(end as int) =~= orig.skip(end as int));
            assert(dst@ =~= dst@.take(end as int) + orig.skip(end as int));
        }
        if end == cap || at == src.len() {
            return Ok(end);
        }
        let ghost had = dst@;
        let (next, end) = take_match(src, token, at, dst, end)?;
        proof {
            assert(had.skip(end as int) =~= orig.skip(end as int));
            assert(dst@ =~= dst@.take(end as int) + orig.skip(end as int));
        }
        ip = next;
        op = end;
    }
}

/// Decoding on keeps what was produced before, and never produces more than it is asked for.
proof fn lemma_decode_keeps(src: Seq<u8>, ip: int, out: Seq<u8>, cap: nat)
    requires
        0 <= ip,
        out.len() <= cap,
    ensures
        ({
            let d = decode_from(src, ip, out, cap);
            &&& out.len() <= d.out.len() <= cap
            &&& d.out.take(out.len() as int) == out
        }),
    decreases src.len() - ip,
{
    let d = decode_from(src, ip, out, cap);
    if out.len() >= cap || ip >= src.len() {
        assert(d.out.take(out.len() as int) =~= out);
    } else {
        lemma_sequence_forward(src, ip, out, cap);
        lemma_token_length(src, ip + 1, src[ip] as int / 16, 0);
        match literals(src, ip, out, cap) {
            Step::Stop(_) => {
                assert(d.out.take(out.len() as int) =~= out);
            },
            Step::On { ip: at, out: out1 } => {
                assert(out1.take(out.len() as int) =~= out);
                match matched(src, src[ip], at, out1, cap) {
                    Step::Stop(_) => {},
                    Step::On { ip: next, out: out2 } => {
                        lemma_matched_keeps(src, src[ip], at, out1, cap);
                        lemma_decode_keeps(src, next, out2, cap);
                        assert(d.out.take(out.len() as int) =~= d.out.take(
                            out2.len() as int,
                        ).take(out1.len() as int).take(out.len() as int));
                    },
                }
            },
        }
    }
}

/// A shorter extension is the front of a longer one.
proof fn lemma_extended_prefix(out: Seq<u8>, offset: int, n: nat, m: nat)
    requires
        n <= m,
    ensures
        extended(out, offset, n) == extended(out, offset, m).take((out.len() + n) as int),
    decreases m,
{
    lemma_extended_len(out, offset, m);
    lemma_extended_len(out, offset, n);
    if n == m {
        assert(extended(out, offset, m).take((out.len() + n) as int) =~= extended(out, offset, n));
    } else {
        lemma_extended_prefix(out, offset, n, (m - 1) as nat);
        lemma_extended_len(out, offset, (m - 1) as nat);
        assert(extended(out, offset, m).take((out.len() + n) as int) =~= extended(
            out,
            offset,
            (m - 1) as nat,
        ).take((out.len() + n) as int));
    }
}

proof fn lemma_decode_prefix(src: Seq<u8>, ip: int, out: Seq<u8>, n: nat, m: nat)
    requires
        0 <= ip,
        out.len() <= n <= m,
    ensures
        ({
            let a = decode_from(src, ip, out, n);
            let b = decode_from(src, ip, out, m);
            &&& a.corrupt || a.out.len() < n ==> b == a
            &&& !a.corrupt && a.out.len() == n ==> n <= b.out.len() && b.out.take(n as int)
                == a.out
        }),
    decreases src.len() - ip,
{
    let a = decode_from(src, ip, out, n);
    let b = decode_from(src, ip, out, m);
    lemma_decode_keeps(src, ip, out, n);
    lemma_decode_keeps(src, ip, out, m);
    if out.len() == n || ip >= src.len() {
    } else {
        lemma_sequence_forward(src, ip, out, n);
        lemma_sequence_forward(src, ip, out, m);
        lemma_token_length(src, ip + 1, src[ip] as int / 16, 0);
        if let Some((len, lit)) = token_length(src, ip + 1, src[ip] as int / 16, 0) {
            if len <= src.len() - lit {
                let at = lit + len;
                if out.len() + len >= n {
                    // The short run ends within the literals.
                    let out_m = out + src.subrange(lit, lit + bytes::least(len, m - out.len()));
                    assert(a.out =~= out_m.take(n as int));
                    assert(!a.corrupt);
                    if out_m.len() < m && at < src.len() {
                        match matched(src, src[ip], at, out_m, m) {
                            Step::Stop(_) => {},
                            Step::On { ip: next, out: out2 } => {
                                lemma_matched_keeps(src, src[ip], at, out_m, m);
                                lemma_decode_keeps(src, next, out2, m);
                                assert(b.out.take(n as int) =~= b.out.take(
                                    out2.len() as int,
                                ).take(out_m.len() as int).take(n as int));
                            },
                        }
                    }
                } else if at < src.len() {
                    let out1 = out + src.subrange(lit, lit + len);
                    assert(literals(src, ip, out, n) == Step::On { ip: at, out: out1 });
                    assert(literals(src, ip, out, m) == Step::On { ip: at, out: out1 });
                    lemma_matched_keeps(src, src[ip], at, out1, n);
                    lemma_matched_keeps(src, src[ip], at, out1, m);
                    match (matched(src, src[ip], at, out1, n), matched(src, src[ip], at, out1, m)) {
                        (Step::On { ip: next, out: out_n }, Step::On { out: out_m, .. }) => {
                            let offset = bytes::le16(src, at) as int;
                            let (mlen, _) = token_length(
                                src,
                                at + 2,
                                src[ip] as int % 16,
                                MIN_MATCH as int,
                            ).unwrap();
                            let kn = bytes::least(mlen, n - out1.len()) as nat;
                            let km = bytes::least(mlen, m - out1.len()) as nat;
                            lemma_extended_prefix(out1, offset, kn, km);
                            assert(a == decode_from(src, next, out_n, n));
                            assert(b == decode_from(src, next, out_m, m));
                            if out_n.len() == n {
                                lemma_decode_keeps(src, next, out_m, m);
                                assert(b.out.take(n as int) =~= b.out.take(
                                    out_m.len() as int,
                                ).take(n as int));
                            } else {
                                assert(out_m.take(out_n.len() as int) =~= out_m);
                                lemma_decode_prefix(src, next, out_n, n, m);
                            }
                        },
                        _ => {},
                    }
                }
            }
        }
    }
}

/// A match keeps what was produced before and stays within the room.
proof fn lemma_matched_keeps(src: Seq<u8>, token: u8, at: int, out: Seq<u8>, cap: nat)
    requires
        0 <= at <= src.len(),
        out.len() <= cap,
    ensures
        matched(src, token, at, out, cap) matches Step::On { ip: next, out: out2 } ==> {
            &&& at < next <= src.len()
            &&& out.len() <= out2.len() <= cap
            &&& out2.take(out.len() as int) == out
            &&& out2.len() == out.len() + bytes::least(
                token_length(src, at + 2, token as int % 16, MIN_MATCH as int).unwrap().0,
                cap - out.len(),
            )
        },
{
    if src.len() - at >= 2 {
        lemma_token_length(src, at + 2, token as int % 16, MIN_MATCH as int);
        if let Some((len, _)) = token_length(src, at + 2, token as int % 16, MIN_MATCH as int) {
            lemma_extended_len(
                out,
                bytes::le16(src, at) as int,
                bytes::least(len, cap - out.len()) as nat,
            );
        }
    }
}

/// Decoding produces at most as many bytes as it is asked for. A block is found corrupt only
/// before there are that many.
pub proof fn law_decode_bounded(src: Seq<u8>, cap: nat)
    ensures
        decode(src, cap).out.len() <= cap,
        decode(src, cap).corrupt ==> decode(src, cap).out.len() < cap,
{
    lemma_decode_keeps(src, 0, Seq::empty(), cap);
    lemma_corrupt_is_short(src, 0, Seq::empty(), cap);
}

proof fn lemma_corrupt_is_short(src: Seq<u8>, ip: int, out: Seq<u8>, cap: nat)
    requires
        0 <= ip,
        out.len() <= cap,
    ensures
        decode_from(src, ip, out, cap).corrupt ==> decode_from(src, ip, out, cap).out.len() < cap,
    decreases src.len() - ip,
{
    if out.len() < cap && ip < src.len() {
        lemma_sequence_forward(src, ip, out, cap);
        lemma_token_length(src, ip + 1, src[ip] as int / 16, 0);
        if let Step::On { ip: at, out: out1 } = literals(src, ip, out, cap) {
            lemma_matched_keeps(src, src[ip], at, out1, cap);
            if let Step::On { ip: next, out: out2 } = matched(src, src[ip], at, out1, cap) {
                lemma_corrupt_is_short(src, next, out2, cap);
            }
        }
    }
}

/// Partial decoding yields the front of what decoding further yields. Asking for fewer bytes
/// fails only where asking for more fails too, and then in the same place; and where a block ends
/// before there are as many bytes as asked for, asking for more yields no more.
pub proof fn law_decode_prefix(src: Seq<u8>, n: nat, m: nat)
    requires
        n <= m,
    ensures
        decode(src, n).corrupt || decode(src, n).out.len() < n ==> decode(src, m) == decode(
            src,
            n,
        ),
        !decode(src, n).corrupt && decode(src, n).out.len() == n ==> n <= decode(src, m).out.len()
            && decode(src, n).out == decode(src, m).out.take(n as int),
{
    lemma_decode_prefix(src, 0, Seq::empty(), n, m);
}

/// A match repeats the last `offset` bytes over and over, however long it is.
pub proof fn law_match_is_periodic(out: Seq<u8>, offset: int, n: nat, k: int)
    requires
        1 <= offset <= out.len(),
        0 <= k < n,
    ensures
        extended(out, offset, n).len() == out.len() + n,
        extended(out, offset, n).take(out.len() as int) == out,
        extended(out, offset, n)[out.len() + k] == out[out.len() - offset + k % offset],
    decreases n, k,
{
    lemma_extended_len(out, offset, n);
    lemma_extended_len(out, offset, (n - 1) as nat);
    if k < n - 1 {
        law_match_is_periodic(out, offset, (n - 1) as nat, k);
    } else {
        let before = extended(out, offset, (n - 1) as nat);
        let from = before.len() - offset;
        if k < offset {
            vstd::arithmetic::div_mod::lemma_small_mod(k as nat, offset as nat);
            assert(before[from] == before.take(out.len() as int)[from]);
        } else {
            law_match_is_periodic(out, offset, (n - 1) as nat, k - offset);
            vstd::arithmetic::div_mod::lemma_mod_sub_multiples_vanish(k, offset);
        }
    }
}

/// Literals and the match behind them.
pub struct Sequence {
    pub literals: Seq<u8>,
    pub offset: u16,
    pub len: int,
}

/// The bytes that add `n` to a length.
pub open spec fn length_bytes(n: int) -> Seq<u8>
    decreases n,
{
    if n < 255 {
        seq![n as u8]
    } else {
        seq![255u8] + length_bytes(n - 255)
    }
}

/// The part of a length that stands in the token.
pub open spec fn nibble(n: int) -> int {
    bytes::least(n, 15)
}

/// The part of a length that stands behind the token.
pub open spec fn length_tail(n: int) -> Seq<u8> {
    if n < 15 {
        Seq::empty()
    } else {
        length_bytes(n - 15)
    }
}

/// A sequence as it stands in a block.
pub open spec fn encoded_sequence(s: Sequence) -> Seq<u8> {
    let token = 16 * nibble(s.literals.len() as int) + nibble(s.len - 4);
    seq![token as u8] + length_tail(s.literals.len() as int) + s.literals + seq![
        (s.offset as int % 256) as u8,
        (s.offset as int / 256) as u8,
    ] + length_tail(s.len - 4)
}

/// A block of sequences that ends with the literals `last`.
pub open spec fn encoded(seqs: Seq<Sequence>, last: Seq<u8>) -> Seq<u8>
    decreases seqs.len(),
{
    if seqs.len() == 0 {
        seq![(16 * nibble(last.len() as int)) as u8] + length_tail(last.len() as int) + last
    } else {
        encoded_sequence(seqs[0]) + encoded(seqs.skip(1), last)
    }
}

/// What a block stands for, behind what `out` already holds.
pub open spec fn plain(seqs: Seq<Sequence>, last: Seq<u8>, out: Seq<u8>) -> Seq<u8>
    decreases seqs.len(),
{
    if seqs.len() == 0 {
        out + last
    } else {
        plain(
            seqs.skip(1),
            last,
            extended(out + seqs[0].literals, seqs[0].offset as int, seqs[0].len as nat),
        )
    }
}

/// Whether there is a block of the sequences: a match refers to what is there before it, it is
/// long enough, and every length is one that the machine knows.
pub open spec fn encodable(seqs: Seq<Sequence>, last: Seq<u8>, out: Seq<u8>) -> bool
    decreases seqs.len(),
{
    if seqs.len() == 0 {
        last.len() <= usize::MAX
    } else {
        let s = seqs[0];
        &&& s.literals.len() <= usize::MAX
        &&& 4 <= s.len <= usize::MAX
        &&& 1 <= s.offset <= out.len() + s.literals.len()
        &&& encodable(
            seqs.skip(1),
            last,
            extended(out + s.literals, s.offset as int, s.len as nat),
        )
    }
}

/// The bytes of a length are read back.
proof fn lemma_length_bytes(before: Seq<u8>, after: Seq<u8>, base: int, n: int)
    requires
        0 <= base,
        0 <= n,
        base + n <= usize::MAX,
    ensures
        ({
            let src = before + length_bytes(n) + after;
            length_at(src, before.len() as int, base) == Some(
                (base + n, (before.len() + length_bytes(n).len()) as int),
            )
        }),
    decreases n,
{
    let src = before + length_bytes(n) + after;
    let ip = before.len() as int;
    if n < LENGTH_EXTENSION {
        assert(src[ip] == n as u8);
    } else {
        let rest = n - LENGTH_EXTENSION;
        let further = before.push(LENGTH_EXTENSION);
        assert(src[ip] == LENGTH_EXTENSION);
        lemma_length_bytes(further, after, base + LENGTH_EXTENSION, rest);
        assert(src =~= further + length_bytes(rest) + after);
    }
}

/// A length is read back from its token and what stands behind it.
proof fn lemma_length_tail(before: Seq<u8>, after: Seq<u8>, n: int, bias: int)
    requires
        0 <= n,
        0 <= bias,
        n + bias <= usize::MAX,
    ensures
        ({
            let src = before + length_tail(n) + after;
            token_length(src, before.len() as int, nibble(n), bias) == Some(
                (n + bias, (before.len() + length_tail(n).len()) as int),
            )
        }),
{
    if n >= TOKEN_LENGTH_MAX {
        lemma_length_bytes(before, after, TOKEN_LENGTH_MAX + bias, n - TOKEN_LENGTH_MAX);
    }
}

/// A block stands for at least what was there before.
proof fn lemma_plain_len(seqs: Seq<Sequence>, last: Seq<u8>, out: Seq<u8>)
    requires
        encodable(seqs, last, out),
    ensures
        plain(seqs, last, out).len() >= out.len() + last.len(),
    decreases seqs.len(),
{
    if seqs.len() > 0 {
        let s = seqs[0];
        lemma_extended_len(out + s.literals, s.offset as int, s.len as nat);
        lemma_plain_len(
            seqs.skip(1),
            last,
            extended(out + s.literals, s.offset as int, s.len as nat),
        );
    }
}

/// The literals behind a token are read back.
proof fn lemma_literals(
    before: Seq<u8>,
    token: u8,
    lit: Seq<u8>,
    after: Seq<u8>,
    out: Seq<u8>,
    cap: nat,
)
    requires
        token as int / 16 == nibble(lit.len() as int),
        lit.len() <= usize::MAX,
        out.len() + lit.len() <= cap,
    ensures
        ({
            let tail = length_tail(lit.len() as int);
            let src = before.push(token) + tail + (lit + after);
            let at = (before.len() + 1 + tail.len() + lit.len()) as int;
            literals(src, before.len() as int, out, cap) == if out.len() + lit.len() == cap
                || after.len() == 0 {
                Step::Stop(Decoded { out: out + lit, corrupt: false })
            } else {
                Step::On { ip: at, out: out + lit }
            }
        }),
{
    let tail = length_tail(lit.len() as int);
    let src = before.push(token) + tail + (lit + after);
    let start = (before.len() + 1 + tail.len()) as int;
    lemma_length_tail(before.push(token), lit + after, lit.len() as int, 0);
    assert(src[before.len() as int] == token);
    assert(src.subrange(start, start + lit.len()) =~= lit);
}

/// The match behind some literals is read back.
proof fn lemma_match(
    front: Seq<u8>,
    token: u8,
    offset: u16,
    len: int,
    after: Seq<u8>,
    out: Seq<u8>,
    cap: nat,
)
    requires
        MIN_MATCH <= len <= usize::MAX,
        token as int % 16 == nibble(len - MIN_MATCH),
        1 <= offset <= out.len(),
        out.len() + len <= cap,
    ensures
        ({
            let back = seq![(offset as int % 256) as u8, (offset as int / 256) as u8];
            let tail = length_tail(len - MIN_MATCH);
            let src = front + back + tail + after;
            matched(src, token, front.len() as int, out, cap) == (Step::On {
                ip: (front.len() + 2 + tail.len()) as int,
                out: extended(out, offset as int, len as nat),
            })
        }),
{
    let back = seq![(offset as int % 256) as u8, (offset as int / 256) as u8];
    let tail = length_tail(len - MIN_MATCH);
    let src = front + back + tail + after;
    let at = front.len() as int;
    lemma_length_tail(front + back, after, len - MIN_MATCH, MIN_MATCH as int);
    assert(src[at] == back[0]);
    assert(src[at + 1] == back[1]);
    assert(bytes::le16(src, at) == offset);
}

/// A match that refers to nothing, or to before the start of the output, is found corrupt.
proof fn lemma_match_from_nowhere(
    front: Seq<u8>,
    token: u8,
    offset: u16,
    after: Seq<u8>,
    out: Seq<u8>,
    cap: nat,
)
    requires
        offset == 0 || offset > out.len(),
    ensures
        ({
            let back = seq![(offset as int % 256) as u8, (offset as int / 256) as u8];
            let src = front + back + after;
            matched(src, token, front.len() as int, out, cap) == Step::Stop(
                Decoded { out, corrupt: true },
            )
        }),
{
    let back = seq![(offset as int % 256) as u8, (offset as int / 256) as u8];
    let src = front + back + after;
    let at = front.len() as int;
    assert(src[at] == back[0]);
    assert(src[at + 1] == back[1]);
    assert(bytes::le16(src, at) == offset);
}

/// Decoding a sequence copies its literals and its match, and goes on behind it.
proof fn lemma_sequence_is_decoded(
    before: Seq<u8>,
    s: Sequence,
    more: Seq<u8>,
    out: Seq<u8>,
    cap: nat,
)
    requires
        s.literals.len() <= usize::MAX,
        MIN_MATCH <= s.len <= usize::MAX,
        1 <= s.offset <= out.len() + s.literals.len(),
        out.len() + s.literals.len() + s.len <= cap,
    ensures
        ({
            let src = before + encoded_sequence(s) + more;
            decode_from(src, before.len() as int, out, cap) == decode_from(
                src,
                (before.len() + encoded_sequence(s).len()) as int,
                extended(out + s.literals, s.offset as int, s.len as nat),
                cap,
            )
        }),
{
    let src = before + encoded_sequence(s) + more;
    let token = (16 * nibble(s.literals.len() as int) + nibble(s.len - MIN_MATCH)) as u8;
    let lit_tail = length_tail(s.literals.len() as int);
    let len_tail = length_tail(s.len - MIN_MATCH);
    let back = seq![(s.offset as int % 256) as u8, (s.offset as int / 256) as u8];
    let after = back + len_tail + more;
    let front = before.push(token) + lit_tail + s.literals;
    lemma_literals(before, token, s.literals, after, out, cap);
    lemma_match(front, token, s.offset, s.len, more, out + s.literals, cap);
    assert(src =~= before.push(token) + lit_tail + (s.literals + after));
    assert(src =~= front + back + len_tail + more);
    assert(src[before.len() as int] == token);
}

/// Decoding the rest of a block yields what it stands for.
proof fn lemma_rest_is_decoded(
    before: Seq<u8>,
    seqs: Seq<Sequence>,
    last: Seq<u8>,
    out: Seq<u8>,
    cap: nat,
)
    requires
        encodable(seqs, last, out),
        plain(seqs, last, out).len() <= cap,
    ensures
        decode_from(before + encoded(seqs, last), before.len() as int, out, cap) == (Decoded {
            out: plain(seqs, last, out),
            corrupt: false,
        }),
    decreases seqs.len(),
{
    let src = before + encoded(seqs, last);
    lemma_plain_len(seqs, last, out);
    if seqs.len() == 0 {
        let tail = length_tail(last.len() as int);
        let token = (16 * nibble(last.len() as int)) as u8;
        lemma_literals(before, token, last, Seq::empty(), out, cap);
        assert(src =~= before.push(token) + tail + (last + Seq::<u8>::empty()));
        if last.len() == 0 {
            assert(out + last =~= out);
        }
    } else {
        let s = seqs[0];
        let rest = seqs.skip(1);
        let one = encoded_sequence(s);
        let out2 = extended(out + s.literals, s.offset as int, s.len as nat);
        lemma_extended_len(out + s.literals, s.offset as int, s.len as nat);
        lemma_plain_len(rest, last, out2);
        lemma_sequence_is_decoded(before, s, encoded(rest, last), out, cap);
        lemma_rest_is_decoded(before + one, rest, last, out2, cap);
        assert(src =~= (before + one) + encoded(rest, last));
    }
}

/// Decoding a block yields what it stands for, or as much of it as there is room for: the literals
/// as they are, and for every match a copy of what was there before it.
pub proof fn law_encoded_block_is_decoded(seqs: Seq<Sequence>, last: Seq<u8>, cap: nat)
    requires
        encodable(seqs, last, Seq::empty()),
    ensures
        ({
            let out = plain(seqs, last, Seq::empty());
            decode(encoded(seqs, last), cap) == (Decoded {
                out: out.take(bytes::least(cap as int, out.len() as int)),
                corrupt: false,
            })
        }),
{
    let out = plain(seqs, last, Seq::empty());
    let room = if cap <= out.len() {
        out.len()
    } else {
        cap
    };
    lemma_rest_is_decoded(Seq::empty(), seqs, last, Seq::empty(), room);
    law_decode_prefix(encoded(seqs, last), cap, room);
    law_decode_bounded(encoded(seqs, last), cap);
    assert(out.take(out.len() as int) =~= out);
    assert(Seq::<u8>::empty() + encoded(seqs, last) =~= encoded(seqs, last));
}

/// Sequences as they stand at the front of a block.
pub open spec fn encoded_front(seqs: Seq<Sequence>) -> Seq<u8>
    decreases seqs.len(),
{
    if seqs.len() == 0 {
        Seq::empty()
    } else {
        encoded_sequence(seqs[0]) + encoded_front(seqs.skip(1))
    }
}

/// Decoding goes on behind the sequences at the front of a block.
proof fn lemma_front_is_decoded(
    before: Seq<u8>,
    seqs: Seq<Sequence>,
    more: Seq<u8>,
    out: Seq<u8>,
    cap: nat,
)
    requires
        encodable(seqs, Seq::empty(), out),
        plain(seqs, Seq::empty(), out).len() <= cap,
    ensures
        ({
            let src = before + encoded_front(seqs) + more;
            decode_from(src, before.len() as int, out, cap) == decode_from(
                src,
                (before.len() + encoded_front(seqs).len()) as int,
                plain(seqs, Seq::empty(), out),
                cap,
            )
        }),
    decreases seqs.len(),
{
    let src = before + encoded_front(seqs) + more;
    let none = Seq::<u8>::empty();
    if seqs.len() == 0 {
        assert(out + none =~= out);
    } else {
        let s = seqs[0];
        let rest = seqs.skip(1);
        let one = encoded_sequence(s);
        let out2 = extended(out + s.literals, s.offset as int, s.len as nat);
        lemma_extended_len(out + s.literals, s.offset as int, s.len as nat);
        lemma_plain_len(rest, none, out2);
        lemma_sequence_is_decoded(before, s, encoded_front(rest) + more, out, cap);
        lemma_front_is_decoded(before + one, rest, more, out2, cap);
        assert(src =~= before + one + (encoded_front(rest) + more));
        assert(src =~= (before + one) + encoded_front(rest) + more);
    }
}

/// A block is its sequences and the literals that it ends with.
proof fn lemma_encoded_parts(seqs: Seq<Sequence>, last: Seq<u8>)
    ensures
        encoded(seqs, last) == encoded_front(seqs) + encoded(Seq::empty(), last),
    decreases seqs.len(),
{
    let end = encoded(Seq::<Sequence>::empty(), last);
    if seqs.len() == 0 {
        assert(seqs =~= Seq::<Sequence>::empty());
        assert(encoded_front(seqs) + end =~= end);
    } else {
        lemma_encoded_parts(seqs.skip(1), last);
        assert(encoded_sequence(seqs[0]) + (encoded_front(seqs.skip(1)) + end) =~= (
        encoded_sequence(seqs[0]) + encoded_front(seqs.skip(1))) + end);
    }
}

/// The literals that a block ends with come last in what it stands for.
proof fn lemma_plain_parts(seqs: Seq<Sequence>, last: Seq<u8>, out: Seq<u8>)
    ensures
        plain(seqs, last, out) == plain(seqs, Seq::empty(), out) + last,
        encodable(seqs, last, out) ==> encodable(seqs, Seq::empty(), out),
    decreases seqs.len(),
{
    if seqs.len() == 0 {
        assert(out + Seq::<u8>::empty() + last =~= out + last);
    } else {
        let s = seqs[0];
        lemma_plain_parts(
            seqs.skip(1),
            last,
            extended(out + s.literals, s.offset as int, s.len as nat),
        );
    }
}

/// What stands behind a block has no say in what it decodes to, as long as no more is wanted than
/// the block stands for.
pub proof fn law_bytes_behind_a_block_have_no_say(
    seqs: Seq<Sequence>,
    last: Seq<u8>,
    more: Seq<u8>,
    cap: nat,
)
    requires
        encodable(seqs, last, Seq::empty()),
        cap <= plain(seqs, last, Seq::empty()).len(),
    ensures
        decode(encoded(seqs, last) + more, cap) == (Decoded {
            out: plain(seqs, last, Seq::empty()).take(cap as int),
            corrupt: false,
        }),
{
    let none = Seq::<u8>::empty();
    let whole = plain(seqs, last, none);
    let front = encoded_front(seqs);
    let end = encoded(Seq::<Sequence>::empty(), last);
    let src = encoded(seqs, last) + more;
    let tail = length_tail(last.len() as int);
    let token = (16 * nibble(last.len() as int)) as u8;
    let out = plain(seqs, none, none);
    lemma_plain_parts(seqs, last, none);
    lemma_encoded_parts(seqs, last);
    assert(encodable(seqs, last, none) ==> last.len() <= usize::MAX) by {
        lemma_last_is_known(seqs, last, none);
    }
    lemma_front_is_decoded(none, seqs, end + more, none, whole.len());
    assert(src =~= none + front + (end + more));
    if last.len() > 0 {
        lemma_literals(front, token, last, more, out, whole.len());
        assert(src =~= front.push(token) + tail + (last + more));
    } else {
        assert(out =~= whole);
    }
    assert(decode(src, whole.len()) == (Decoded { out: whole, corrupt: false }));
    law_decode_prefix(src, cap, whole.len());
    law_decode_bounded(src, cap);
}

/// The literals that a block ends with are of a length that the machine knows.
proof fn lemma_last_is_known(seqs: Seq<Sequence>, last: Seq<u8>, out: Seq<u8>)
    requires
        encodable(seqs, last, out),
    ensures
        last.len() <= usize::MAX,
    decreases seqs.len(),
{
    if seqs.len() > 0 {
        let s = seqs[0];
        lemma_last_is_known(
            seqs.skip(1),
            last,
            extended(out + s.literals, s.offset as int, s.len as nat),
        );
    }
}

/// Decoding a sequence whose match refers to nothing ends behind its literals.
proof fn lemma_sequence_from_nowhere(
    before: Seq<u8>,
    s: Sequence,
    more: Seq<u8>,
    out: Seq<u8>,
    cap: nat,
)
    requires
        s.literals.len() <= usize::MAX,
        4 <= s.len,
        s.offset == 0 || s.offset > out.len() + s.literals.len(),
        out.len() + s.literals.len() < cap,
    ensures
        ({
            let src = before + encoded_sequence(s) + more;
            decode_from(src, before.len() as int, out, cap) == (Decoded {
                out: out + s.literals,
                corrupt: true,
            })
        }),
{
    let src = before + encoded_sequence(s) + more;
    let token = (16 * nibble(s.literals.len() as int) + nibble(s.len - 4)) as u8;
    let lit_tail = length_tail(s.literals.len() as int);
    let len_tail = length_tail(s.len - 4);
    let back = seq![(s.offset as int % 256) as u8, (s.offset as int / 256) as u8];
    let after = back + len_tail + more;
    let front = before.push(token) + lit_tail + s.literals;
    lemma_literals(before, token, s.literals, after, out, cap);
    lemma_match_from_nowhere(front, token, s.offset, len_tail + more, out + s.literals, cap);
    assert(src =~= before.push(token) + lit_tail + (s.literals + after));
    assert(src =~= front + back + (len_tail + more));
    assert(src[before.len() as int] == token);
}

/// A match that refers to nothing, or to before the start of what is decoded, makes a block
/// corrupt. What was decoded by then stays, the literals before the match too.
pub proof fn law_match_from_nowhere_is_corrupt(
    seqs: Seq<Sequence>,
    s: Sequence,
    more: Seq<u8>,
    cap: nat,
)
    requires
        encodable(seqs, Seq::empty(), Seq::empty()),
        s.literals.len() <= usize::MAX,
        4 <= s.len,
        s.offset == 0 || s.offset > plain(seqs, Seq::empty(), Seq::empty()).len()
            + s.literals.len(),
        plain(seqs, Seq::empty(), Seq::empty()).len() + s.literals.len() < cap,
    ensures
        decode(encoded_front(seqs) + encoded_sequence(s) + more, cap) == (Decoded {
            out: plain(seqs, Seq::empty(), Seq::empty()) + s.literals,
            corrupt: true,
        }),
{
    let none = Seq::<u8>::empty();
    let front = encoded_front(seqs);
    let one = encoded_sequence(s);
    lemma_front_is_decoded(none, seqs, one + more, none, cap);
    lemma_sequence_from_nowhere(front, s, more, plain(seqs, none, none), cap);
    assert(front + one + more =~= none + front + (one + more));
}

/// A block that ends within its literals, or within the bytes of a length, is corrupt, and what was
/// decoded before the literals stays. One that ends after half of an offset is corrupt too.
pub proof fn law_block_that_ends_too_early_is_corrupt(
    seqs: Seq<Sequence>,
    lit: Seq<u8>,
    given: nat,
    low: u8,
    cap: nat,
)
    requires
        encodable(seqs, Seq::empty(), Seq::empty()),
        lit.len() <= usize::MAX,
        given < lit.len(),
        low < 16,
        plain(seqs, Seq::empty(), Seq::empty()).len() + lit.len() < cap,
    ensures
        ({
            let out = plain(seqs, Seq::empty(), Seq::empty());
            let token = seq![(16 * nibble(lit.len() as int) + low) as u8];
            let tail = length_tail(lit.len() as int);
            let start = encoded_front(seqs) + token + tail;
            &&& decode(start + lit.take(given as int), cap) == (Decoded { out, corrupt: true })
            &&& decode(start + lit + seq![low], cap) == (Decoded { out: out + lit, corrupt: true })
            &&& lit.len() >= 15 ==> decode(start.drop_last(), cap) == (Decoded {
                out,
                corrupt: true,
            })
        }),
{
    let none = Seq::<u8>::empty();
    let front = encoded_front(seqs);
    let out = plain(seqs, none, none);
    let token = (16 * nibble(lit.len() as int) + low) as u8;
    let tail = length_tail(lit.len() as int);
    let start = front + seq![token] + tail;
    let at = front.len() as int;

    let short = start + lit.take(given as int);
    lemma_front_is_decoded(none, seqs, seq![token] + tail + lit.take(given as int), none, cap);
    assert(short =~= none + front + (seq![token] + tail + lit.take(given as int)));
    lemma_length_tail(front.push(token), lit.take(given as int), lit.len() as int, 0);
    assert(short =~= front.push(token) + tail + lit.take(given as int));
    assert(short[at] == token);

    let half = start + lit + seq![low];
    lemma_front_is_decoded(none, seqs, seq![token] + tail + lit + seq![low], none, cap);
    assert(half =~= none + front + (seq![token] + tail + lit + seq![low]));
    lemma_literals(front, token, lit, seq![low], out, cap);
    assert(half =~= front.push(token) + tail + (lit + seq![low]));

    if lit.len() >= 15 {
        let n = lit.len() - 15;
        let cut = start.drop_last();
        lemma_length_bytes_cut(front.push(token), 15, n);
        lemma_front_is_decoded(none, seqs, seq![token] + tail.drop_last(), none, cap);
        lemma_length_bytes_some(n);
        assert(cut =~= none + front + (seq![token] + tail.drop_last()));
        assert(cut =~= front.push(token) + length_bytes(n).drop_last());
        assert(cut[at] == token);
    }
}

/// A length takes at least one byte.
proof fn lemma_length_bytes_some(n: int)
    requires
        0 <= n,
    ensures
        length_bytes(n).len() > 0,
{
}

/// A length whose last byte is missing is not read.
proof fn lemma_length_bytes_cut(before: Seq<u8>, base: int, n: int)
    requires
        0 <= base,
        0 <= n,
    ensures
        length_at(before + length_bytes(n).drop_last(), before.len() as int, base) is None,
    decreases n,
{
    let src = before + length_bytes(n).drop_last();
    if n >= LENGTH_EXTENSION {
        let rest = n - LENGTH_EXTENSION;
        let further = before.push(LENGTH_EXTENSION);
        lemma_length_bytes_some(rest);
        lemma_length_bytes_cut(further, base + LENGTH_EXTENSION, rest);
        assert(src =~= further + length_bytes(rest).drop_last());
        assert(src[before.len() as int] == LENGTH_EXTENSION);
    }
}

/// A length is read up to its end: the bytes before the last one that is read are all 255, and the
/// last is another one, or the last of the input, or goes beyond the lengths that the machine
/// knows. A length that is read is the sum of its bytes.
pub proof fn law_length_is_read_to_its_end(src: Seq<u8>, ip: int, base: int)
    requires
        0 <= ip <= src.len(),
        0 <= base <= usize::MAX,
    ensures
        ({
            let stop = length_stop(src, ip, base);
            let n = stop - ip;
            &&& ip <= stop <= src.len()
            &&& forall|k: int| ip <= k < stop - 1 ==> src[k] == 255
            &&& match length_at(src, ip, base) {
                Some((len, end)) => {
                    &&& end == stop
                    &&& n >= 1
                    &&& src[stop - 1] != 255
                    &&& len == base + 255 * (n - 1) + src[stop - 1]
                },
                None => stop == src.len() || base + 255 * (n - 1) + src[stop - 1] > usize::MAX,
            }
        }),
    decreases src.len() - ip,
{
    if ip < src.len() && src[ip] == 255 && base + 255 <= usize::MAX {
        law_length_is_read_to_its_end(src, ip + 1, base + 255);
        let stop = length_stop(src, ip + 1, base + 255);
        assert forall|k: int| ip <= k < stop - 1 implies src[k] == 255 by {
            if k > ip {
                assert(ip + 1 <= k);
            }
        }
    }
}

/// A block may end with a match, and then it stands for what its sequences do. An input without a
/// single token is no block, unless nothing is wanted of it.
pub proof fn law_block_that_ends_with_a_match(seqs: Seq<Sequence>, cap: nat)
    requires
        encodable(seqs, Seq::empty(), Seq::empty()),
        plain(seqs, Seq::empty(), Seq::empty()).len() <= cap,
    ensures
        decode(encoded_front(seqs), cap) == (Decoded {
            out: plain(seqs, Seq::empty(), Seq::empty()),
            corrupt: seqs.len() == 0 && cap > 0,
        }),
{
    let none = Seq::<u8>::empty();
    lemma_front_is_decoded(none, seqs, none, none, cap);
    assert(none + encoded_front(seqs) + none =~= encoded_front(seqs));
    if seqs.len() > 0 {
        lemma_plain_len(
            seqs.skip(1),
            none,
            extended(none + seqs[0].literals, seqs[0].offset as int, seqs[0].len as nat),
        );
        lemma_extended_len(none + seqs[0].literals, seqs[0].offset as int, seqs[0].len as nat);
        assert(encoded_front(seqs).len() >= encoded_sequence(seqs[0]).len());
        assert(encoded_sequence(seqs[0]).len() > 0);
    } else {
        assert(none + none =~= none);
    }
}

} // verus!
