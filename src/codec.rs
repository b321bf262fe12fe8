use vstd::prelude::*;

use crate::error::PolicyError;
use crate::expr::{fits, BinOp, Expr, ExprV};
use crate::text::{char_from_code, code_of, push_char};

verus! {

/// Eight bytes, most significant first.
pub open spec fn u64_bytes(v: u64) -> Seq<u8> {
    seq![
        (v >> 56u64) as u8,
        (v >> 48u64) as u8,
        (v >> 40u64) as u8,
        (v >> 32u64) as u8,
        (v >> 24u64) as u8,
        (v >> 16u64) as u8,
        (v >> 8u64) as u8,
        v as u8,
    ]
}

/// The number that eight bytes, most significant first, stand for.
pub open spec fn u64_of(b: Seq<u8>) -> u64 {
    ((b[0] as u64) << 56u64) | ((b[1] as u64) << 48u64) | ((b[2] as u64) << 40u64) | ((
    b[3] as u64) << 32u64) | ((b[4] as u64) << 24u64) | ((b[5] as u64) << 16u64) | ((b[6] as u64)
        << 8u64) | (b[7] as u64)
}

pub proof fn lemma_u64_of_bytes(v: u64)
    ensures
        u64_bytes(v).len() == 8,
        u64_of(u64_bytes(v)) == v,
{
    let b = u64_bytes(v);
    assert(((((v >> 56u64) as u8) as u64) << 56u64) | ((((v >> 48u64) as u8) as u64) << 48u64)
        | ((((v >> 40u64) as u8) as u64) << 40u64) | ((((v >> 32u64) as u8) as u64) << 32u64)
        | ((((v >> 24u64) as u8) as u64) << 24u64) | ((((v >> 16u64) as u8) as u64) << 16u64)
        | ((((v >> 8u64) as u8) as u64) << 8u64) | ((v as u8) as u64) == v) by (bit_vector);
}

pub proof fn lemma_bytes_of_u64(b: Seq<u8>)
    requires
        b.len() == 8,
    ensures
        u64_bytes(u64_of(b)) == b,
{
    let (b0, b1, b2, b3, b4, b5, b6, b7) = (b[0], b[1], b[2], b[3], b[4], b[5], b[6], b[7]);
    let v = u64_of(b);
    assert(v == ((b0 as u64) << 56u64) | ((b1 as u64) << 48u64) | ((b2 as u64) << 40u64) | ((
    b3 as u64) << 32u64) | ((b4 as u64) << 24u64) | ((b5 as u64) << 16u64) | ((b6 as u64)
        << 8u64) | (b7 as u64));
    assert((v >> 56u64) as u8 == b0 && (v >> 48u64) as u8 == b1 && (v >> 40u64) as u8 == b2 && (v
        >> 32u64) as u8 == b3 && (v >> 24u64) as u8 == b4 && (v >> 16u64) as u8 == b5 && (v
        >> 8u64) as u8 == b6 && v as u8 == b7) by (bit_vector)
        requires
            v == ((b0 as u64) << 56u64) | ((b1 as u64) << 48u64) | ((b2 as u64) << 40u64) | ((
            b3 as u64) << 32u64) | ((b4 as u64) << 24u64) | ((b5 as u64) << 16u64) | ((
            b6 as u64) << 8u64) | (b7 as u64),
    ;
    assert(u64_bytes(v) =~= b);
}

/// The wire tag of a binary operator.
pub open spec fn op_tag(op: BinOp) -> u8 {
    match op {
        BinOp::And => 5,
        BinOp::Or => 6,
        BinOp::Eq => 7,
        BinOp::Ne => 8,
        BinOp::Lt => 9,
        BinOp::Le => 10,
        BinOp::Gt => 11,
        BinOp::Ge => 12,
    }
}

/// Each character as the eight bytes of its code.
pub open spec fn chars_bytes(s: Seq<char>) -> Seq<u8>
    decreases s.len(),
{
    if s.len() == 0 {
        seq![]
    } else {
        chars_bytes(s.drop_last()) + u64_bytes(code_of(s.last()) as u64)
    }
}

/// A text on the wire: its length in characters, then its characters.
pub open spec fn text_bytes(s: Seq<char>) -> Seq<u8> {
    u64_bytes(s.len() as u64) + chars_bytes(s)
}

/// The wire form of an expression: a tag byte, then the payload of that
/// variant; sub-expressions are written in order.
pub open spec fn encode(e: ExprV) -> Seq<u8>
    decreases e,
{
    match e {
        ExprV::Bool(b) => seq![0u8, if b { 1u8 } else { 0u8 }],
        ExprV::Int(n) => if n < 0 {
            seq![1u8, 1u8] + u64_bytes((-n) as u64)
        } else {
            seq![1u8, 0u8] + u64_bytes(n as u64)
        },
        ExprV::Str(s) => seq![2u8] + text_bytes(s),
        ExprV::Ident(s) => seq![3u8] + text_bytes(s),
        ExprV::Not(a) => seq![4u8] + encode(*a),
        ExprV::Binary(op, a, c) => seq![op_tag(op)] + encode(*a) + encode(*c),
    }
}

fn put_u64(out: &mut Vec<u8>, v: u64)
    ensures
        final(out)@ == old(out)@ + u64_bytes(v),
{
    out.push((v >> 56u64) as u8);
    out.push((v >> 48u64) as u8);
    out.push((v >> 40u64) as u8);
    out.push((v >> 32u64) as u8);
    out.push((v >> 24u64) as u8);
    out.push((v >> 16u64) as u8);
    out.push((v >> 8u64) as u8);
    out.push(v as u8);
    assert(final(out)@ =~= old(out)@ + u64_bytes(v));
}

fn put_text(out: &mut Vec<u8>, s: &String)
    ensures
        final(out)@ == old(out)@ + text_bytes(s@),
        s@.len() <= u64::MAX,
{
    let n = s.as_str().unicode_len();
    put_u64(out, n as u64);
    let ghost start = out@;
    let mut k: usize = 0;
    while k < n
        invariant
            n == s@.len(),
            k <= n,
            out@ == start + chars_bytes(s@.take(k as int)),
        decreases n - k,
    {
        let c = s.as_str().get_char(k);
        put_u64(out, c as u32 as u64);
        proof {
            assert(s@.take(k + 1).drop_last() =~= s@.take(k as int));
        }
        k = k + 1;
    }
    assert(s@.take(n as int) =~= s@);
    assert(out@ =~= old(out)@ + text_bytes(s@));
}

fn serialize_into(e: &Expr, out: &mut Vec<u8>)
    ensures
        final(out)@ == old(out)@ + encode(e@),
        fits(e@),
    decreases e,
{
    match e {
        Expr::Bool(b) => {
            out.push(0u8);
            out.push(if *b { 1u8 } else { 0u8 });
        },
        Expr::Int(n) => {
            out.push(1u8);
            if *n < 0 {
                out.push(1u8);
                let m: u64 = if *n == i64::MIN {
                    9223372036854775808u64
                } else {
                    (-*n) as u64
                };
                put_u64(out, m);
            } else {
                out.push(0u8);
                put_u64(out, *n as u64);
            }
        },
        Expr::Str(s) => {
            out.push(2u8);
            put_text(out, s);
        },
        Expr::Ident(s) => {
            out.push(3u8);
            put_text(out, s);
        },
        Expr::Not(a) => {
            out.push(4u8);
            serialize_into(a, out);
        },
        Expr::Binary(op, a, c) => {
            let t: u8 = match op {
                BinOp::And => 5,
                BinOp::Or => 6,
                BinOp::Eq => 7,
                BinOp::Ne => 8,
                BinOp::Lt => 9,
                BinOp::Le => 10,
                BinOp::Gt => 11,
                BinOp::Ge => 12,
            };
            out.push(t);
            serialize_into(a, out);
            serialize_into(c, out);
        },
    }
    assert(final(out)@ =~= old(out)@ + encode(e@));
}

/// The wire form of `e`.
pub fn serialize(e: &Expr) -> (r: Vec<u8>)
    ensures
        r@ == encode(e@),
        fits(e@),
{
    let mut out: Vec<u8> = Vec::new();
    serialize_into(e, &mut out);
    assert(out@ =~= encode(e@));
    out
}


/// The tag byte that opens the wire form of `e`.
pub open spec fn tag_of(e: ExprV) -> u8 {
    match e {
        ExprV::Bool(_) => 0,
        ExprV::Int(_) => 1,
        ExprV::Str(_) => 2,
        ExprV::Ident(_) => 3,
        ExprV::Not(_) => 4,
        ExprV::Binary(op, _, _) => op_tag(op),
    }
}

/// `b` holds the wire form of `e` from position `i` on.
pub open spec fn encoded_at(b: Seq<u8>, i: int, e: ExprV) -> bool {
    &&& fits(e)
    &&& 0 <= i
    &&& i + encode(e).len() <= b.len()
    &&& b.subrange(i, i + encode(e).len()) == encode(e)
}

/// `b` holds the wire form of the text `t` from position `i` on.
pub open spec fn text_at(b: Seq<u8>, i: int, t: Seq<char>) -> bool {
    &&& t.len() <= u64::MAX
    &&& 0 <= i
    &&& i + text_bytes(t).len() <= b.len()
    &&& b.subrange(i, i + text_bytes(t).len()) == text_bytes(t)
}

proof fn lemma_sub(b: Seq<u8>, i: int, x: Seq<u8>, a: int, c: int)
    requires
        0 <= i,
        i + x.len() <= b.len(),
        b.subrange(i, i + x.len()) == x,
        0 <= a <= c <= x.len(),
    ensures
        b.subrange(i + a, i + c) == x.subrange(a, c),
{
    assert(b.subrange(i + a, i + c) =~= b.subrange(i, i + x.len()).subrange(a, c));
}

proof fn lemma_chars_len(s: Seq<char>)
    ensures
        chars_bytes(s).len() == 8 * s.len(),
    decreases s.len(),
{
    if s.len() > 0 {
        lemma_chars_len(s.drop_last());
        lemma_u64_of_bytes(code_of(s.last()) as u64);
    }
}

proof fn lemma_chars_block(s: Seq<char>, k: int)
    requires
        0 <= k < s.len(),
    ensures
        chars_bytes(s).subrange(8 * k, 8 * k + 8) == u64_bytes(code_of(s[k]) as u64),
    decreases s.len(),
{
    let p = s.drop_last();
    lemma_chars_len(s);
    lemma_chars_len(p);
    lemma_u64_of_bytes(code_of(s.last()) as u64);
    if k == s.len() - 1 {
        assert(chars_bytes(s).subrange(8 * k, 8 * k + 8) =~= u64_bytes(code_of(s[k]) as u64));
    } else {
        lemma_chars_block(p, k);
        assert(chars_bytes(s).subrange(8 * k, 8 * k + 8) =~= chars_bytes(p).subrange(
            8 * k,
            8 * k + 8,
        ));
    }
}

proof fn lemma_text_len(b: Seq<u8>, i: int, t: Seq<char>)
    requires
        text_at(b, i, t),
    ensures
        text_bytes(t).len() == 8 + 8 * t.len(),
        u64_of(b.subrange(i, i + 8)) == t.len(),
{
    lemma_u64_of_bytes(t.len() as u64);
    lemma_chars_len(t);
    lemma_sub(b, i, text_bytes(t), 0, 8);
    assert(text_bytes(t).subrange(0, 8) =~= u64_bytes(t.len() as u64));
}

proof fn lemma_text_char(b: Seq<u8>, i: int, t: Seq<char>, k: int)
    requires
        text_at(b, i, t),
        0 <= k < t.len(),
    ensures
        i + 16 + 8 * k <= b.len(),
        u64_of(b.subrange(i + 8 + 8 * k, i + 16 + 8 * k)) == code_of(t[k]) as u64,
{
    lemma_text_len(b, i, t);
    lemma_sub(b, i, text_bytes(t), 8 + 8 * k, 16 + 8 * k);
    assert(text_bytes(t).subrange(8 + 8 * k, 16 + 8 * k) =~= chars_bytes(t).subrange(
        8 * k,
        8 * k + 8,
    ));
    lemma_chars_block(t, k);
    lemma_u64_of_bytes(code_of(t[k]) as u64);
}

proof fn lemma_encode_len(e: ExprV)
    ensures
        encode(e).len() >= 2,
        encode(e)[0] == tag_of(e),
    decreases e,
{
    match e {
        ExprV::Int(n) => {
            lemma_u64_of_bytes((if n < 0 { -n } else { n }) as u64);
        },
        ExprV::Str(s) => {
            lemma_u64_of_bytes(s.len() as u64);
        },
        ExprV::Ident(s) => {
            lemma_u64_of_bytes(s.len() as u64);
        },
        ExprV::Not(a) => {
            lemma_encode_len(*a);
        },
        ExprV::Binary(_, a, c) => {
            lemma_encode_len(*a);
        },
        _ => {},
    }
}

proof fn lemma_encoded_tag(b: Seq<u8>, i: int, e: ExprV)
    requires
        encoded_at(b, i, e),
    ensures
        i + 2 <= b.len(),
        b[i] == tag_of(e),
{
    lemma_encode_len(e);
    assert(b.subrange(i, i + encode(e).len())[0] == b[i]);
}

fn read_u64(b: &Vec<u8>, i: usize) -> (r: u64)
    requires
        i + 8 <= b@.len(),
    ensures
        r == u64_of(b@.subrange(i as int, i + 8)),
{
    let _len = b.len();
    ((b[i] as u64) << 56u64) | ((b[i + 1] as u64) << 48u64) | ((b[i + 2] as u64) << 40u64) | ((
    b[i + 3] as u64) << 32u64) | ((b[i + 4] as u64) << 24u64) | ((b[i + 5] as u64) << 16u64) | ((
    b[i + 6] as u64) << 8u64) | (b[i + 7] as u64)
}

fn decode_text(b: &Vec<u8>, i: usize) -> (r: Result<(String, usize), PolicyError>)
    requires
        i <= b@.len(),
    ensures
        match r {
            Ok((s, j)) => {
                &&& text_at(b@, i as int, s@)
                &&& j == i + text_bytes(s@).len()
                &&& forall|t: Seq<char>| #[trigger] text_at(b@, i as int, t) ==> t == s@
            },
            Err(err) => {
                &&& err == PolicyError::MalformedExpression
                &&& forall|t: Seq<char>| !#[trigger] text_at(b@, i as int, t)
            },
        },
{
    if b.len() - i < 8 {
        proof {
            assert forall|t: Seq<char>| !#[trigger] text_at(b@, i as int, t) by {
                lemma_u64_of_bytes(t.len() as u64);
                lemma_chars_len(t);
            }
        }
        return Err(PolicyError::MalformedExpression);
    }
    let n = read_u64(b, i);
    proof {
        assert forall|t: Seq<char>| #[trigger] text_at(b@, i as int, t) implies t.len() == n by {
            lemma_text_len(b@, i as int, t);
        }
    }
    let mut s = String::new();
    let mut pos: usize = i + 8;
    let mut k: u64 = 0;
    while k < n
        invariant
            i + 8 <= b@.len(),
            n == u64_of(b@.subrange(i as int, i + 8)),
            k <= n,
            s@.len() == k,
            pos == i + 8 + 8 * k,
            pos <= b@.len(),
            b@.subrange(i + 8, pos as int) == chars_bytes(s@),
            forall|kk: int|
                0 <= kk < k ==> #[trigger] code_of(s@[kk]) as u64 == u64_of(
                    b@.subrange(i + 8 + 8 * kk, i + 16 + 8 * kk),
                ),
            forall|t: Seq<char>| #[trigger] text_at(b@, i as int, t) ==> t.len() == n,
        decreases n - k,
    {
        if b.len() - pos < 8 {
            proof {
                assert forall|t: Seq<char>| !#[trigger] text_at(b@, i as int, t) by {
                    if text_at(b@, i as int, t) {
                        lemma_text_char(b@, i as int, t, k as int);
                    }
                }
            }
            return Err(PolicyError::MalformedExpression);
        }
        let v = read_u64(b, pos);
        if v > 0xFFFF_FFFFu64 {
            proof {
                assert forall|t: Seq<char>| !#[trigger] text_at(b@, i as int, t) by {
                    if text_at(b@, i as int, t) {
                        lemma_text_char(b@, i as int, t, k as int);
                    }
                }
            }
            return Err(PolicyError::MalformedExpression);
        }
        match char_from_code(v as u32) {
            None => {
                proof {
                    assert forall|t: Seq<char>| !#[trigger] text_at(b@, i as int, t) by {
                        if text_at(b@, i as int, t) {
                            lemma_text_char(b@, i as int, t, k as int);
                            assert(code_of(t[k as int]) != v as u32);
                        }
                    }
                }
                return Err(PolicyError::MalformedExpression);
            },
            Some(c) => {
                let ghost old_s = s@;
                push_char(&mut s, c);
                proof {
                    lemma_bytes_of_u64(b@.subrange(pos as int, pos + 8));
                    assert(s@.drop_last() =~= old_s);
                    assert(b@.subrange(i + 8, pos + 8) =~= b@.subrange(i + 8, pos as int)
                        + b@.subrange(pos as int, pos + 8));
                    assert(b@.subrange(i + 8, pos + 8) == chars_bytes(s@));
                }
                pos = pos + 8;
                k = k + 1;
            },
        }
    }
    proof {
        lemma_bytes_of_u64(b@.subrange(i as int, i + 8));
        lemma_chars_len(s@);
        assert(b@.subrange(i as int, pos as int) =~= b@.subrange(i as int, i + 8) + b@.subrange(
            i + 8,
            pos as int,
        ));
        assert forall|t: Seq<char>| #[trigger] text_at(b@, i as int, t) implies t == s@ by {
            assert forall|kk: int| 0 <= kk < t.len() implies t[kk] == s@[kk] by {
                lemma_text_char(b@, i as int, t, kk);
                assert(code_of(s@[kk]) as u64 == u64_of(
                    b@.subrange(i + 8 + 8 * kk, i + 16 + 8 * kk),
                ));
                vstd::utf8::char_u32_cast(t[kk], code_of(t[kk]));
                vstd::utf8::char_u32_cast(s@[kk], code_of(s@[kk]));
            }
            assert(t =~= s@);
        }
    }
    Ok((s, pos))
}


proof fn lemma_none_at(b: Seq<u8>, i: int, t: u8)
    requires
        0 <= i < b.len(),
        b[i] == t,
        t > 12,
    ensures
        forall|e: ExprV| !#[trigger] encoded_at(b, i, e),
{
    assert forall|e: ExprV| !#[trigger] encoded_at(b, i, e) by {
        if encoded_at(b, i, e) {
            lemma_encoded_tag(b, i, e);
        }
    }
}

proof fn lemma_tag_at(b: Seq<u8>, i: int)
    requires
        0 <= i < b.len(),
    ensures
        forall|e2: ExprV| #[trigger] encoded_at(b, i, e2) ==> tag_of(e2) == b[i] && i + 2 <= b.len(),
{
    assert forall|e2: ExprV| #[trigger] encoded_at(b, i, e2) implies tag_of(e2) == b[i] && i + 2
        <= b.len() by {
        lemma_encoded_tag(b, i, e2);
    }
}

fn decode_bool(b: &Vec<u8>, i: usize, t: u8) -> (r: Result<(Expr, usize), PolicyError>)
    requires
        i < b@.len(),
        b@[i as int] == t,
        t == 0,
    ensures
        match r {
            Ok((e, j)) => {
                &&& encoded_at(b@, i as int, e@)
                &&& j == i + encode(e@).len()
                &&& forall|e2: ExprV| #[trigger] encoded_at(b@, i as int, e2) ==> e2 == e@
            },
            Err(err) => {
                &&& err == PolicyError::MalformedExpression
                &&& forall|e2: ExprV| !#[trigger] encoded_at(b@, i as int, e2)
            },
        },
{
    let len = b.len();
    proof {
        lemma_tag_at(b@, i as int);
    }
        if len - i < 2 {
            return Err(PolicyError::MalformedExpression);
        }
        let v = b[i + 1];
        proof {
            assert forall|e2: ExprV| #[trigger] encoded_at(b@, i as int, e2) implies e2 == ExprV::Bool(
                v == 1,
            ) && (v == 0 || v == 1) by {
                if let ExprV::Bool(x) = e2 {
                    assert(b@.subrange(i as int, i + 2)[1] == v);
                } else {
                    assert(tag_of(e2) != 0);
                }
            }
        }
        if v > 1 {
            return Err(PolicyError::MalformedExpression);
        }
        let e = Expr::Bool(v == 1);
        assert(b@.subrange(i as int, i + 2) =~= encode(e@));
        Ok((e, i + 2))
}

fn decode_int(b: &Vec<u8>, i: usize, t: u8) -> (r: Result<(Expr, usize), PolicyError>)
    requires
        i < b@.len(),
        b@[i as int] == t,
        t == 1,
    ensures
        match r {
            Ok((e, j)) => {
                &&& encoded_at(b@, i as int, e@)
                &&& j == i + encode(e@).len()
                &&& forall|e2: ExprV| #[trigger] encoded_at(b@, i as int, e2) ==> e2 == e@
            },
            Err(err) => {
                &&& err == PolicyError::MalformedExpression
                &&& forall|e2: ExprV| !#[trigger] encoded_at(b@, i as int, e2)
            },
        },
{
    let len = b.len();
    proof {
        lemma_tag_at(b@, i as int);
    }
        if len - i < 10 {
            return Err(PolicyError::MalformedExpression);
        }
        let sign = b[i + 1];
        let m = read_u64(b, i + 2);
        proof {
            lemma_bytes_of_u64(b@.subrange(i + 2, i + 10));
            assert forall|e2: ExprV| #[trigger] encoded_at(b@, i as int, e2) implies (match e2 {
                ExprV::Int(n) => if n < 0 {
                    sign == 1 && m == -n
                } else {
                    sign == 0 && m == n
                },
                _ => false,
            }) by {
                if let ExprV::Int(n) = e2 {
                    let mag: u64 = (if n < 0 { -n } else { n }) as u64;
                    lemma_u64_of_bytes(mag);
                    lemma_sub(b@, i as int, encode(e2), 2, 10);
                    assert(encode(e2).subrange(2, 10) =~= u64_bytes(mag));
                    assert(b@.subrange(i as int, i + 10)[1] == sign);
                } else {
                    assert(tag_of(e2) != 1);
                }
            }
        }
        let n: i64 = if sign == 0 {
            if m > 9223372036854775807u64 {
                return Err(PolicyError::MalformedExpression);
            }
            m as i64
        } else if sign == 1 {
            if m == 0 || m > 9223372036854775808u64 {
                return Err(PolicyError::MalformedExpression);
            }
            if m == 9223372036854775808u64 {
                i64::MIN
            } else {
                -(m as i64)
            }
        } else {
            return Err(PolicyError::MalformedExpression);
        };
        let e = Expr::Int(n);
        proof {
            assert(b@.subrange(i as int, i + 10) =~= seq![1u8, sign] + b@.subrange(i + 2, i + 10));
            assert(b@.subrange(i as int, i + 10) =~= encode(e@));
        }
        Ok((e, i + 10))
}

fn decode_text_expr(b: &Vec<u8>, i: usize, t: u8) -> (r: Result<(Expr, usize), PolicyError>)
    requires
        i < b@.len(),
        b@[i as int] == t,
        t == 2 || t == 3,
    ensures
        match r {
            Ok((e, j)) => {
                &&& encoded_at(b@, i as int, e@)
                &&& j == i + encode(e@).len()
                &&& forall|e2: ExprV| #[trigger] encoded_at(b@, i as int, e2) ==> e2 == e@
            },
            Err(err) => {
                &&& err == PolicyError::MalformedExpression
                &&& forall|e2: ExprV| !#[trigger] encoded_at(b@, i as int, e2)
            },
        },
{
    let len = b.len();
    proof {
        lemma_tag_at(b@, i as int);
    }
        proof {
            assert forall|e2: ExprV| #[trigger] encoded_at(b@, i as int, e2) implies (match e2 {
                ExprV::Str(x) => t == 2 && text_at(b@, i + 1, x),
                ExprV::Ident(x) => t == 3 && text_at(b@, i + 1, x),
                _ => false,
            }) by {
                match e2 {
                    ExprV::Str(x) => {
                        lemma_sub(b@, i as int, encode(e2), 1, encode(e2).len() as int);
                        assert(encode(e2).subrange(1, encode(e2).len() as int) =~= text_bytes(x));
                    },
                    ExprV::Ident(x) => {
                        lemma_sub(b@, i as int, encode(e2), 1, encode(e2).len() as int);
                        assert(encode(e2).subrange(1, encode(e2).len() as int) =~= text_bytes(x));
                    },
                    _ => {
                        assert(tag_of(e2) != 2 && tag_of(e2) != 3);
                    },
                }
            }
        }
        let (s, j) = decode_text(b, i + 1)?;
        let e = if t == 2 {
            Expr::Str(s)
        } else {
            Expr::Ident(s)
        };
        proof {
            assert(b@.subrange(i as int, j as int) =~= seq![t] + b@.subrange(i + 1, j as int));
            assert(b@.subrange(i as int, j as int) =~= encode(e@));
        }
        Ok((e, j))
}

fn decode_at(b: &Vec<u8>, i: usize) -> (r: Result<(Expr, usize), PolicyError>)
    requires
        i <= b@.len(),
    ensures
        match r {
            Ok((e, j)) => {
                &&& encoded_at(b@, i as int, e@)
                &&& j == i + encode(e@).len()
                &&& forall|e2: ExprV| #[trigger] encoded_at(b@, i as int, e2) ==> e2 == e@
            },
            Err(err) => {
                &&& err == PolicyError::MalformedExpression
                &&& forall|e2: ExprV| !#[trigger] encoded_at(b@, i as int, e2)
            },
        },
    decreases b@.len() - i,
{
    let len = b.len();
    if i >= len {
        proof {
            assert forall|e2: ExprV| !#[trigger] encoded_at(b@, i as int, e2) by {
                lemma_encode_len(e2);
            }
        }
        return Err(PolicyError::MalformedExpression);
    }
    let t = b[i];
    proof {
        lemma_tag_at(b@, i as int);
    }
    if t == 0 {
        decode_bool(b, i, t)
    } else if t == 1 {
        decode_int(b, i, t)
    } else if t == 2 || t == 3 {
        decode_text_expr(b, i, t)
    } else if t == 4 {
        proof {
            assert forall|e2: ExprV| #[trigger] encoded_at(b@, i as int, e2) implies (match e2 {
                ExprV::Not(a) => encoded_at(b@, i + 1, *a),
                _ => false,
            }) by {
                if let ExprV::Not(a) = e2 {
                    lemma_sub(b@, i as int, encode(e2), 1, encode(e2).len() as int);
                    assert(encode(e2).subrange(1, encode(e2).len() as int) =~= encode(*a));
                } else {
                    assert(tag_of(e2) != 4);
                }
            }
        }
        let (a, j) = decode_at(b, i + 1)?;
        let e = Expr::Not(Box::new(a));
        proof {
            assert(b@.subrange(i as int, j as int) =~= seq![4u8] + b@.subrange(i + 1, j as int));
            assert(b@.subrange(i as int, j as int) =~= encode(e@));
        }
        Ok((e, j))
    } else if t <= 12 {
        let op = if t == 5 {
            BinOp::And
        } else if t == 6 {
            BinOp::Or
        } else if t == 7 {
            BinOp::Eq
        } else if t == 8 {
            BinOp::Ne
        } else if t == 9 {
            BinOp::Lt
        } else if t == 10 {
            BinOp::Le
        } else if t == 11 {
            BinOp::Gt
        } else {
            BinOp::Ge
        };
        assert(op_tag(op) == t);
        proof {
            assert forall|e2: ExprV| #[trigger] encoded_at(b@, i as int, e2) implies (match e2 {
                ExprV::Binary(op2, a, c) => op2 == op && encoded_at(b@, i + 1, *a)
                    && encoded_at(b@, i + 1 + encode(*a).len(), *c),
                _ => false,
            }) by {
                if let ExprV::Binary(op2, a, c) = e2 {
                    let la = encode(*a).len() as int;
                    let lc = encode(*c).len() as int;
                    lemma_sub(b@, i as int, encode(e2), 1, 1 + la);
                    lemma_sub(b@, i as int, encode(e2), 1 + la, 1 + la + lc);
                    assert(encode(e2).subrange(1, 1 + la) =~= encode(*a));
                    assert(encode(e2).subrange(1 + la, 1 + la + lc) =~= encode(*c));
                } else {
                    assert(tag_of(e2) < 5);
                }
            }
        }
        let (a, j1) = decode_at(b, i + 1)?;
        let (c, j2) = decode_at(b, j1)?;
        let e = Expr::Binary(op, Box::new(a), Box::new(c));
        proof {
            assert(b@.subrange(i as int, j2 as int) =~= seq![t] + b@.subrange(i + 1, j1 as int)
                + b@.subrange(j1 as int, j2 as int));
            assert(b@.subrange(i as int, j2 as int) =~= encode(e@));
        }
        Ok((e, j2))
    } else {
        proof {
            lemma_none_at(b@, i as int, t);
        }
        Err(PolicyError::MalformedExpression)
    }
}

/// Reads an expression from its wire form. Succeeds exactly on the wire
/// forms of expressions, and then returns the one expression written there;
/// a truncated payload, trailing bytes or an unknown tag give
/// `MalformedExpression`.
pub fn deserialize(b: &Vec<u8>) -> (r: Result<Expr, PolicyError>)
    ensures
        match r {
            Ok(e) => {
                &&& fits(e@)
                &&& encode(e@) == b@
                &&& forall|e2: ExprV| fits(e2) && #[trigger] encode(e2) == b@ ==> e2 == e@
            },
            Err(err) => {
                &&& err == PolicyError::MalformedExpression
                &&& forall|e2: ExprV| fits(e2) ==> #[trigger] encode(e2) != b@
            },
        },
{
    let res = decode_at(b, 0);
    proof {
        assert forall|e2: ExprV| fits(e2) && #[trigger] encode(e2) == b@ implies encoded_at(
            b@,
            0,
            e2,
        ) by {
            assert(b@.subrange(0, b@.len() as int) =~= b@);
        }
    }
    match res {
        Ok((e, j)) => {
            if j == b.len() {
                assert(b@.subrange(0, j as int) =~= b@);
                Ok(e)
            } else {
                Err(PolicyError::MalformedExpression)
            }
        },
        Err(err) => Err(err),
    }
}


proof fn lemma_text_prefix(s1: Seq<char>, s2: Seq<char>, x1: Seq<u8>, x2: Seq<u8>)
    requires
        s1.len() <= u64::MAX,
        s2.len() <= u64::MAX,
        text_bytes(s1) + x1 == text_bytes(s2) + x2,
    ensures
        s1 == s2,
        x1 == x2,
{
    let b = text_bytes(s1) + x1;
    assert(text_at(b, 0, s1)) by {
        assert(b.subrange(0, text_bytes(s1).len() as int) =~= text_bytes(s1));
    }
    assert(text_at(b, 0, s2)) by {
        assert(b.subrange(0, text_bytes(s2).len() as int) =~= text_bytes(s2));
    }
    lemma_text_len(b, 0, s1);
    lemma_text_len(b, 0, s2);
    assert forall|k: int| 0 <= k < s1.len() implies s1[k] == s2[k] by {
        lemma_text_char(b, 0, s1, k);
        lemma_text_char(b, 0, s2, k);
        vstd::utf8::char_u32_cast(s1[k], code_of(s1[k]));
        vstd::utf8::char_u32_cast(s2[k], code_of(s2[k]));
    }
    assert(s1 =~= s2);
    assert(x1 =~= b.subrange(text_bytes(s1).len() as int, b.len() as int));
    assert(x2 =~= b.subrange(text_bytes(s2).len() as int, b.len() as int));
}

/// No wire form is a proper prefix of another: where the wire forms of two
/// expressions, each followed by any bytes, agree, the expressions are equal
/// and so are the bytes that follow.
#[verifier::rlimit(40)]
pub proof fn lemma_encode_prefix_free(e1: ExprV, e2: ExprV, x1: Seq<u8>, x2: Seq<u8>)
    requires
        fits(e1),
        fits(e2),
        encode(e1) + x1 == encode(e2) + x2,
    ensures
        e1 == e2,
        x1 == x2,
    decreases e1,
{
    let b = encode(e1) + x1;
    lemma_encode_len(e1);
    lemma_encode_len(e2);
    assert(b[0] == tag_of(e1) && b[0] == tag_of(e2));
    match (e1, e2) {
        (ExprV::Bool(p), ExprV::Bool(q)) => {
            assert(b[1] == encode(e1)[1] && b[1] == encode(e2)[1]);
            assert(x1 =~= b.subrange(2, b.len() as int));
            assert(x2 =~= b.subrange(2, b.len() as int));
        },
        (ExprV::Int(n1), ExprV::Int(n2)) => {
            let m1: u64 = (if n1 < 0 { -n1 } else { n1 }) as u64;
            let m2: u64 = (if n2 < 0 { -n2 } else { n2 }) as u64;
            lemma_u64_of_bytes(m1);
            lemma_u64_of_bytes(m2);
            assert(b.subrange(2, 10) =~= u64_bytes(m1));
            assert(b.subrange(2, 10) =~= u64_bytes(m2));
            assert(b[1] == encode(e1)[1] && b[1] == encode(e2)[1]);
            assert(x1 =~= b.subrange(10, b.len() as int));
            assert(x2 =~= b.subrange(10, b.len() as int));
        },
        (ExprV::Str(s1), ExprV::Str(s2)) => {
            assert(text_bytes(s1) + x1 =~= b.subrange(1, b.len() as int));
            assert(text_bytes(s2) + x2 =~= b.subrange(1, b.len() as int));
            lemma_text_prefix(s1, s2, x1, x2);
        },
        (ExprV::Ident(s1), ExprV::Ident(s2)) => {
            assert(text_bytes(s1) + x1 =~= b.subrange(1, b.len() as int));
            assert(text_bytes(s2) + x2 =~= b.subrange(1, b.len() as int));
            lemma_text_prefix(s1, s2, x1, x2);
        },
        (ExprV::Not(a1), ExprV::Not(a2)) => {
            assert(encode(*a1) + x1 =~= b.subrange(1, b.len() as int));
            assert(encode(*a2) + x2 =~= b.subrange(1, b.len() as int));
            lemma_encode_prefix_free(*a1, *a2, x1, x2);
        },
        (ExprV::Binary(o1, a1, c1), ExprV::Binary(o2, a2, c2)) => {
            assert(encode(*a1) + (encode(*c1) + x1) =~= b.subrange(1, b.len() as int));
            assert(encode(*a2) + (encode(*c2) + x2) =~= b.subrange(1, b.len() as int));
            lemma_encode_prefix_free(*a1, *a2, encode(*c1) + x1, encode(*c2) + x2);
            lemma_encode_prefix_free(*c1, *c2, x1, x2);
        },
        _ => {},
    }
}

/// Reading back a wire form gives the expression that was written: for
/// every expression `e` that a value of `Expr` can hold, `deserialize` of
/// `encode(e)` succeeds with `e` and with no other expression.
pub proof fn lemma_round_trip(e: ExprV)
    requires
        fits(e),
    ensures
        forall|e2: ExprV| fits(e2) && #[trigger] encode(e2) == encode(e) ==> e2 == e,
{
    assert forall|e2: ExprV| fits(e2) && #[trigger] encode(e2) == encode(e) implies e2 == e by {
        assert(encode(e2) + Seq::<u8>::empty() =~= encode(e) + Seq::<u8>::empty());
        lemma_encode_prefix_free(e2, e, Seq::empty(), Seq::empty());
    }
}

} // verus!
