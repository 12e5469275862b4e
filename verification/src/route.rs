//! Reading the local source address out of the routing utility's output:
//! the first whitespace-delimited token after the literal `src`, parsed
//! as a dotted-quad IPv4 address. The embedding program runs the utility
//! and hands its raw output here.
use vstd::prelude::*;

verus! {

/// ASCII whitespace, as the tokenizer splits on it.
pub open spec fn is_space(b: u8) -> bool {
    b == 32 || b == 9 || b == 10 || b == 12 || b == 13
}

/// Where the token starting at `i` ends: the first space at or after `i`,
/// or the end of the input.
pub open spec fn token_end(s: Seq<u8>, i: int) -> int
    decreases s.len() - i,
{
    if i < 0 || i >= s.len() || is_space(s[i]) {
        i
    } else {
        token_end(s, i + 1)
    }
}

pub proof fn lemma_token_end_bounds(s: Seq<u8>, i: int)
    requires
        0 <= i <= s.len(),
    ensures
        i <= token_end(s, i) <= s.len(),
    decreases s.len() - i,
{
    if i < s.len() && !is_space(s[i]) {
        lemma_token_end_bounds(s, i + 1);
    }
}

/// The whitespace-separated tokens of `s` from position `i` on.
pub open spec fn tokens_from(s: Seq<u8>, i: int) -> Seq<Seq<u8>>
    decreases s.len() - i,
        via tokens_from_decreases
{
    if i < 0 || i >= s.len() {
        Seq::<Seq<u8>>::empty()
    } else if is_space(s[i]) {
        tokens_from(s, i + 1)
    } else {
        seq![s.subrange(i, token_end(s, i))] + tokens_from(s, token_end(s, i))
    }
}

#[via_fn]
proof fn tokens_from_decreases(s: Seq<u8>, i: int) {
    if 0 <= i && i < s.len() && !is_space(s[i]) {
        lemma_token_end_bounds(s, i + 1);
    }
}

/// Where the dotted part starting at `i` ends: the first `.` at or after
/// `i`, or the end of the input.
pub open spec fn dot_end(s: Seq<u8>, i: int) -> int
    decreases s.len() - i,
{
    if i < 0 || i >= s.len() || s[i] == 46 {
        i
    } else {
        dot_end(s, i + 1)
    }
}

pub proof fn lemma_dot_end_bounds(s: Seq<u8>, i: int)
    requires
        0 <= i <= s.len(),
    ensures
        i <= dot_end(s, i) <= s.len(),
    decreases s.len() - i,
{
    if i < s.len() && s[i] != 46 {
        lemma_dot_end_bounds(s, i + 1);
    }
}

/// The `.`-separated parts of `s` from position `i` on (empty parts
/// included, as splitting on a separator gives them).
pub open spec fn dot_parts(s: Seq<u8>, i: int) -> Seq<Seq<u8>>
    decreases s.len() - i,
        via dot_parts_decreases
{
    if i < 0 || i > s.len() {
        Seq::<Seq<u8>>::empty()
    } else {
        let e = dot_end(s, i);
        if e >= s.len() {
            seq![s.subrange(i, s.len() as int)]
        } else {
            seq![s.subrange(i, e)] + dot_parts(s, e + 1)
        }
    }
}

#[via_fn]
proof fn dot_parts_decreases(s: Seq<u8>, i: int) {
    if 0 <= i && i <= s.len() {
        lemma_dot_end_bounds(s, i);
    }
}

pub open spec fn is_digit(b: u8) -> bool {
    48 <= b <= 57
}

pub open spec fn all_digits(t: Seq<u8>) -> bool {
    forall|k: int| #![trigger t[k]] 0 <= k < t.len() ==> is_digit(t[k])
}

/// The decimal value of a digit string.
pub open spec fn digits_val(t: Seq<u8>) -> int
    decreases t.len(),
{
    if t.len() == 0 {
        0
    } else {
        digits_val(t.drop_last()) * 10 + (t.last() - 48)
    }
}

/// One decimal octet as the standard library's address parser takes it:
/// one to three digits, no leading zero, at most 255.
pub open spec fn valid_octet(t: Seq<u8>) -> bool {
    &&& 1 <= t.len() <= 3
    &&& all_digits(t)
    &&& (t[0] != 48 || t.len() == 1)
    &&& digits_val(t) <= 255
}

/// A dotted-quad IPv4 address as a 32-bit value, big-endian.
pub open spec fn parse_ipv4_spec(t: Seq<u8>) -> Option<u32> {
    let ps = dot_parts(t, 0);
    if ps.len() == 4 && valid_octet(ps[0]) && valid_octet(ps[1]) && valid_octet(ps[2])
        && valid_octet(ps[3]) {
        Some(
            (digits_val(ps[0]) * 0x100_0000 + digits_val(ps[1]) * 0x1_0000 + digits_val(ps[2])
                * 0x100 + digits_val(ps[3])) as u32,
        )
    } else {
        None
    }
}

/// The address value of the token after the first `src` token, if both
/// exist and the address parses.
pub open spec fn find_src_value(ts: Seq<Seq<u8>>, j: int) -> Option<u32>
    decreases ts.len() - j,
{
    if j < 0 || j >= ts.len() {
        None
    } else if ts[j] == seq![115u8, 114u8, 99u8] {
        if j + 1 < ts.len() {
            parse_ipv4_spec(ts[j + 1])
        } else {
            None
        }
    } else {
        find_src_value(ts, j + 1)
    }
}

/// What the whole lookup output means: the dotted quad after `src`.
pub open spec fn source_addr_spec(s: Seq<u8>) -> Option<u32> {
    find_src_value(tokens_from(s, 0), 0)
}

fn is_space_byte(b: u8) -> (r: bool)
    ensures
        r == is_space(b),
{
    b == 32 || b == 9 || b == 10 || b == 12 || b == 13
}

/// Split on ASCII whitespace, as the tokenizer spec describes.
#[verifier::loop_isolation(false)]
fn split_tokens(data: &Vec<u8>) -> (ts: Vec<Vec<u8>>)
    ensures
        ts@.map_values(|t: Vec<u8>| t@) == tokens_from(data@, 0),
{
    let mut ts: Vec<Vec<u8>> = Vec::new();
    let n = data.len();
    let mut i: usize = 0;
    proof {
        assert(ts@.map_values(|t: Vec<u8>| t@) =~= Seq::<Seq<u8>>::empty());
    }
    while i < n
        invariant
            i <= n,
            tokens_from(data@, 0) == ts@.map_values(|t: Vec<u8>| t@) + tokens_from(
                data@,
                i as int,
            ),
        decreases n - i,
    {
        if is_space_byte(data[i]) {
            i = i + 1;
        } else {
            let start = i;
            let mut tok: Vec<u8> = Vec::new();
            while i < n && !(data[i] == 32 || data[i] == 9 || data[i] == 10 || data[i] == 12
                || data[i] == 13)
                invariant
                    start <= i <= n,
                    token_end(data@, start as int) == token_end(data@, i as int),
                    tok@ == data@.subrange(start as int, i as int),
                decreases n - i,
            {
                tok.push(data[i]);
                i = i + 1;
                proof {
                    assert(tok@ =~= data@.subrange(start as int, i as int));
                }
            }
            proof {
                assert(token_end(data@, i as int) == i as int);
                assert(tokens_from(data@, start as int) == seq![
                    data@.subrange(start as int, i as int),
                ] + tokens_from(data@, i as int));
            }
            let ghost prev = ts@.map_values(|t: Vec<u8>| t@);
            let ghost tokv = tok@;
            ts.push(tok);
            proof {
                assert(ts@.map_values(|t: Vec<u8>| t@) =~= prev.push(tokv));
                assert(prev.push(tokv) + tokens_from(data@, i as int) =~= prev + (seq![tokv]
                    + tokens_from(data@, i as int)));
            }
        }
    }
    proof {
        assert(tokens_from(data@, n as int) =~= Seq::<Seq<u8>>::empty());
        assert(ts@.map_values(|t: Vec<u8>| t@) + Seq::<Seq<u8>>::empty() =~= ts@.map_values(
            |t: Vec<u8>| t@,
        ));
    }
    ts
}

/// The decimal value of one dotted part, when it is a valid octet.
#[verifier::loop_isolation(false)]
fn octet_val(p: &Vec<u8>) -> (r: Option<u8>)
    ensures
        match r {
            Some(v) => valid_octet(p@) && v == digits_val(p@),
            None => !valid_octet(p@),
        },
{
    let n = p.len();
    if n < 1 || n > 3 {
        return None;
    }
    if p[0] == 48 && n > 1 {
        return None;
    }
    let mut val: u16 = 0;
    let mut k: usize = 0;
    proof {
        assert(p@.take(0) =~= Seq::<u8>::empty());
    }
    while k < n
        invariant
            k <= n,
            n <= 3,
            val == digits_val(p@.take(k as int)),
            val <= 999,
            k < 3 ==> val <= 99,
            k < 2 ==> val <= 9,
            k < 1 ==> val == 0,
            all_digits(p@.take(k as int)),
        decreases n - k,
    {
        let b = p[k];
        if !(48 <= b && b <= 57) {
            proof {
                assert(p@[k as int] == b);
                assert(!is_digit(p@[k as int]));
                assert(!all_digits(p@));
            }
            return None;
        }
        val = val * 10 + (b - 48) as u16;
        k = k + 1;
        proof {
            assert(p@.take(k as int).drop_last() =~= p@.take(k as int - 1));
            assert(p@.take(k as int).last() == b);
            assert(all_digits(p@.take(k as int))) by {
                assert forall|m: int| #![trigger p@.take(k as int)[m]]
                    0 <= m < k implies is_digit(p@.take(k as int)[m]) by {
                    if m < k - 1 {
                        assert(p@.take(k as int)[m] == p@.take(k as int - 1)[m]);
                    } else {
                        assert(p@.take(k as int)[m] == b);
                    }
                }
            }
        }
    }
    proof {
        assert(p@.take(n as int) =~= p@);
    }
    if val > 255 {
        return None;
    }
    Some(val as u8)
}

/// Parse a dotted-quad IPv4 address, as [`parse_ipv4_spec`] describes.
#[verifier::loop_isolation(false)]
pub fn parse_ipv4(t: &Vec<u8>) -> (r: Option<u32>)
    ensures
        r == parse_ipv4_spec(t@),
{
    let n = t.len();
    let mut parts: Vec<Vec<u8>> = Vec::new();
    let mut i: usize = 0;
    let mut done = false;
    proof {
        assert(parts@.map_values(|q: Vec<u8>| q@) =~= Seq::<Seq<u8>>::empty());
    }
    while !done
        invariant
            i <= n,
            dot_parts(t@, 0) == parts@.map_values(|q: Vec<u8>| q@) + (if done {
                Seq::<Seq<u8>>::empty()
            } else {
                dot_parts(t@, i as int)
            }),
        decreases n - i + (if done {
            0int
        } else {
            1int
        }),
    {
        let start = i;
        let mut part: Vec<u8> = Vec::new();
        while i < n && t[i] != 46
            invariant
                start <= i <= n,
                dot_end(t@, start as int) == dot_end(t@, i as int),
                part@ == t@.subrange(start as int, i as int),
            decreases n - i,
        {
            part.push(t[i]);
            i = i + 1;
            proof {
                assert(part@ =~= t@.subrange(start as int, i as int));
            }
        }
        proof {
            assert(dot_end(t@, i as int) == i as int);
        }
        let ghost prev = parts@.map_values(|q: Vec<u8>| q@);
        let ghost partv = part@;
        parts.push(part);
        proof {
            assert(parts@.map_values(|q: Vec<u8>| q@) =~= prev.push(partv));
        }
        if i < n {
            i = i + 1;
            proof {
                assert(dot_parts(t@, start as int) == seq![partv] + dot_parts(t@, i as int));
                assert(prev.push(partv) + dot_parts(t@, i as int) =~= prev + (seq![partv]
                    + dot_parts(t@, i as int)));
            }
        } else {
            done = true;
            proof {
                assert(partv =~= t@.subrange(start as int, t@.len() as int));
                assert(dot_parts(t@, start as int) == seq![partv]);
                assert(prev.push(partv) + Seq::<Seq<u8>>::empty() =~= prev + seq![partv]);
            }
        }
    }
    if parts.len() != 4 {
        return None;
    }
    let a = match octet_val(&parts[0]) {
        Some(v) => v,
        None => {
            return None;
        },
    };
    let b = match octet_val(&parts[1]) {
        Some(v) => v,
        None => {
            return None;
        },
    };
    let c = match octet_val(&parts[2]) {
        Some(v) => v,
        None => {
            return None;
        },
    };
    let d = match octet_val(&parts[3]) {
        Some(v) => v,
        None => {
            return None;
        },
    };
    Some((a as u32) * 0x100_0000 + (b as u32) * 0x1_0000 + (c as u32) * 0x100 + (d as u32))
}

/// The source address in the routing utility's output: the dotted quad
/// after the literal `src`, or nothing when no such token is there.
#[verifier::loop_isolation(false)]
pub fn parse_source_addr(output: &Vec<u8>) -> (r: Option<u32>)
    ensures
        r == source_addr_spec(output@),
{
    let ts = split_tokens(output);
    let ghost tsm = ts@.map_values(|t: Vec<u8>| t@);
    let n = ts.len();
    let mut j: usize = 0;
    while j < n
        invariant
            j <= n,
            find_src_value(tsm, 0) == find_src_value(tsm, j as int),
        decreases n - j,
    {
        let is_src = ts[j].len() == 3 && ts[j][0] == 115 && ts[j][1] == 114 && ts[j][2] == 99;
        if is_src {
            proof {
                assert(tsm[j as int] =~= seq![115u8, 114u8, 99u8]);
            }
            if j + 1 < n {
                let r = parse_ipv4(&ts[j + 1]);
                proof {
                    assert(ts[j as int + 1]@ == tsm[j as int + 1]);
                }
                return r;
            } else {
                return None;
            }
        }
        proof {
            let srcseq = seq![115u8, 114u8, 99u8];
            if tsm[j as int] == srcseq {
                assert(tsm[j as int].len() == 3);
                assert(tsm[j as int][0] == 115 && tsm[j as int][1] == 114 && tsm[j as int][2]
                    == 99);
                assert(false);
            }
        }
        j = j + 1;
    }
    None
}

} // verus!
