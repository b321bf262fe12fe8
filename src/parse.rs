use vstd::prelude::*;

use crate::error::PolicyError;
use crate::expr::{BinOp, Expr, ExprV};
use crate::text::push_char;

verus! {

pub open spec fn is_digit(c: char) -> bool {
    '0' <= c && c <= '9'
}

pub open spec fn digit_val(c: char) -> int {
    if c == '0' {
        0
    } else if c == '1' {
        1
    } else if c == '2' {
        2
    } else if c == '3' {
        3
    } else if c == '4' {
        4
    } else if c == '5' {
        5
    } else if c == '6' {
        6
    } else if c == '7' {
        7
    } else if c == '8' {
        8
    } else {
        9
    }
}

pub open spec fn digit_char(d: int) -> char {
    seq!['0', '1', '2', '3', '4', '5', '6', '7', '8', '9'][d]
}

/// The decimal digits of `n`, most significant first, without leading zeros.
pub open spec fn digits(n: nat) -> Seq<char>
    decreases n,
{
    if n < 10 {
        seq![digit_char(n as int)]
    } else {
        digits(n / 10).push(digit_char((n % 10) as int))
    }
}

/// The number that a sequence of decimal digits stands for.
pub open spec fn digits_val(ds: Seq<char>) -> int
    decreases ds.len(),
{
    if ds.len() == 0 {
        0
    } else {
        digits_val(ds.drop_last()) * 10 + digit_val(ds.last())
    }
}

/// Characters that may continue an attribute name.
pub open spec fn is_ident_char(c: char) -> bool {
    ('a' <= c && c <= 'z') || ('A' <= c && c <= 'Z') || ('0' <= c && c <= '9') || c == '_' || c
        == '.' || c == '-'
}

/// Characters that may start an attribute name.
pub open spec fn is_ident_start(c: char) -> bool {
    ('a' <= c && c <= 'z') || ('A' <= c && c <= 'Z') || c == '_'
}

/// An attribute name: a letter or `_`, then letters, digits, `_`, `.` or
/// `-`; the two boolean words are literals, not names.
pub open spec fn valid_ident(s: Seq<char>) -> bool {
    &&& s.len() > 0
    &&& is_ident_start(s[0])
    &&& forall|k: int| 0 <= k < s.len() ==> #[trigger] is_ident_char(s[k])
    &&& s != seq!['t', 'r', 'u', 'e']
    &&& s != seq!['f', 'a', 'l', 's', 'e']
}

/// The word that names an operator in the text form.
pub open spec fn op_name(op: BinOp) -> Seq<char> {
    match op {
        BinOp::And => seq!['a', 'n', 'd'],
        BinOp::Or => seq!['o', 'r'],
        BinOp::Eq => seq!['='],
        BinOp::Ne => seq!['!', '='],
        BinOp::Lt => seq!['<'],
        BinOp::Le => seq!['<', '='],
        BinOp::Gt => seq!['>'],
        BinOp::Ge => seq!['>', '='],
    }
}

pub open spec fn not_word() -> Seq<char> {
    seq!['n', 'o', 't']
}

/// The expressions that the text grammar can write: integers within `i64`,
/// strings without a double quote, valid attribute names.
pub open spec fn well_formed(e: ExprV) -> bool
    decreases e,
{
    match e {
        ExprV::Bool(_) => true,
        ExprV::Int(n) => i64::MIN <= n <= i64::MAX,
        ExprV::Str(s) => forall|k: int| 0 <= k < s.len() ==> #[trigger] s[k] != '"',
        ExprV::Ident(s) => valid_ident(s),
        ExprV::Not(a) => well_formed(*a),
        ExprV::Binary(_, a, c) => well_formed(*a) && well_formed(*c),
    }
}

/// The canonical text of an expression: literals and names as written,
/// every combinator in its own parentheses, one space between the parts.
pub open spec fn render(e: ExprV) -> Seq<char>
    decreases e,
{
    match e {
        ExprV::Bool(b) => if b {
            seq!['t', 'r', 'u', 'e']
        } else {
            seq!['f', 'a', 'l', 's', 'e']
        },
        ExprV::Int(n) => if n < 0 {
            seq!['-'] + digits((-n) as nat)
        } else {
            digits(n as nat)
        },
        ExprV::Str(s) => seq!['"'] + s + seq!['"'],
        ExprV::Ident(s) => s,
        ExprV::Not(a) => seq!['('] + not_word() + seq![' '] + render(*a) + seq![')'],
        ExprV::Binary(op, a, c) => seq!['('] + op_name(op) + seq![' '] + render(*a) + seq![' ']
            + render(*c) + seq![')'],
    }
}

/// Position `k` ends an expression in `s`: the end, a space or a closing
/// parenthesis.
pub open spec fn stops_at(s: Seq<char>, k: int) -> bool {
    k == s.len() || s[k] == ' ' || s[k] == ')'
}

/// `s` holds the text of `e` from position `i` on, and it ends there.
pub open spec fn rendered_at(s: Seq<char>, i: int, e: ExprV) -> bool {
    &&& well_formed(e)
    &&& 0 <= i
    &&& i + render(e).len() <= s.len()
    &&& s.subrange(i, i + render(e).len()) == render(e)
    &&& stops_at(s, i + render(e).len())
}

proof fn lemma_sub<A>(b: Seq<A>, i: int, x: Seq<A>, a: int, c: int)
    requires
        0 <= i,
        i + x.len() <= b.len(),
        b.subrange(i, i + x.len()) == x,
        0 <= a <= c <= x.len(),
    ensures
        b.subrange(i + a, i + c) == x.subrange(a, c),
{
    assert(b.subrange(i + a, i + c) =~= b.subrange(i, i + x.len()).subrange(a, c));
}

proof fn lemma_digit_char(d: int)
    requires
        0 <= d < 10,
    ensures
        digit_val(digit_char(d)) == d,
        is_digit(digit_char(d)),
{
    let t = seq!['0', '1', '2', '3', '4', '5', '6', '7', '8', '9'];
    assert(t[0] == '0' && t[1] == '1' && t[2] == '2' && t[3] == '3' && t[4] == '4' && t[5] == '5'
        && t[6] == '6' && t[7] == '7' && t[8] == '8' && t[9] == '9');
}

proof fn lemma_char_digit(c: char)
    requires
        is_digit(c),
    ensures
        0 <= digit_val(c) < 10,
        digit_char(digit_val(c)) == c,
{
    assert(c == '0' || c == '1' || c == '2' || c == '3' || c == '4' || c == '5' || c == '6' || c
        == '7' || c == '8' || c == '9');
    lemma_digit_char(digit_val(c));
}

proof fn lemma_digits(n: nat)
    ensures
        digits(n).len() >= 1,
        digits_val(digits(n)) == n,
        forall|k: int| 0 <= k < digits(n).len() ==> #[trigger] is_digit(digits(n)[k]),
        digits(n)[0] == '0' ==> n == 0,
    decreases n,
{
    if n < 10 {
        lemma_digit_char(n as int);
        assert(digits(n).drop_last() =~= Seq::<char>::empty());
        assert(digits_val(Seq::<char>::empty()) == 0);
    } else {
        lemma_digits(n / 10);
        lemma_digit_char((n % 10) as int);
        let p = digits(n / 10);
        assert(digits(n).drop_last() =~= p);
        assert(digits(n)[0] == p[0]);
        assert(digits(n).last() == digit_char((n % 10) as int));
        assert(digits_val(digits(n)) == digits_val(p) * 10 + (n % 10) as int);
        assert((n / 10) * 10 + n % 10 == n) by (nonlinear_arith);
    }
}

proof fn lemma_val_digits(ds: Seq<char>)
    requires
        ds.len() >= 1,
        forall|k: int| 0 <= k < ds.len() ==> #[trigger] is_digit(ds[k]),
        ds[0] != '0' || ds.len() == 1,
    ensures
        digits_val(ds) >= 0,
        digits(digits_val(ds) as nat) == ds,
        ds.len() > 1 ==> digits_val(ds) >= 10,
    decreases ds.len(),
{
    let p = ds.drop_last();
    let d = digit_val(ds.last());
    lemma_char_digit(ds.last());
    if ds.len() == 1 {
        assert(digits_val(p) == 0);
        assert(digits(d as nat) =~= ds);
    } else {
        lemma_val_digits(p);
        let v = digits_val(p);
        assert(v >= 1) by {
            if p.len() == 1 {
                assert(p[0] == ds[0]);
            }
        }
        assert((v * 10 + d) / 10 == v && (v * 10 + d) % 10 == d) by (nonlinear_arith)
            requires
                0 <= d < 10,
        ;
        assert(digits((v * 10 + d) as nat) == digits(v as nat).push(digit_char(d)));
        assert(digits((v * 10 + d) as nat) =~= p.push(ds.last()));
        assert(p.push(ds.last()) =~= ds);
    }
}

proof fn lemma_val_prefix(ds: Seq<char>, k: int)
    requires
        0 <= k <= ds.len(),
        forall|j: int| 0 <= j < ds.len() ==> #[trigger] is_digit(ds[j]),
    ensures
        0 <= digits_val(ds.take(k)) <= digits_val(ds),
    decreases ds.len(),
{
    if ds.len() > 0 {
        let p = ds.drop_last();
        if k == ds.len() {
            assert(ds.take(k) =~= ds);
            lemma_val_prefix(p, p.len() as int);
            assert(p.take(p.len() as int) =~= p);
        } else {
            lemma_val_prefix(p, k);
            assert(p.take(k) =~= ds.take(k));
            lemma_val_prefix(p, p.len() as int);
            assert(p.take(p.len() as int) =~= p);
        }
    }
}


/// A character that cannot end or open a part of the text.
pub open spec fn plain_char(c: char) -> bool {
    c != ' ' && c != ')' && c != '(' && c != '"'
}

proof fn lemma_render_shape(e: ExprV)
    requires
        well_formed(e),
    ensures
        render(e).len() >= 1,
        (render(e)[0] == '(') <==> (e is Not || e is Binary),
        (render(e)[0] == '"') <==> e is Str,
        (e is Bool || e is Int || e is Ident) ==> forall|k: int|
            0 <= k < render(e).len() ==> plain_char(#[trigger] render(e)[k]),
        e is Int ==> (render(e)[0] == '-' || is_digit(render(e)[0])),
        e is Ident ==> is_ident_start(render(e)[0]),
{
    match e {
        ExprV::Int(n) => {
            let m: nat = (if n < 0 { -n } else { n }) as nat;
            lemma_digits(m);
            assert forall|k: int| 0 <= k < render(e).len() implies plain_char(
                #[trigger] render(e)[k],
            ) by {
                if n < 0 {
                    assert(render(e) == seq!['-'] + digits(m));
                    if k > 0 {
                        assert(render(e)[k] == digits(m)[k - 1]);
                        assert(is_digit(digits(m)[k - 1]));
                    }
                } else {
                    assert(render(e) == digits(m));
                    assert(is_digit(digits(m)[k]));
                }
            }
            if n < 0 {
                assert(render(e) == seq!['-'] + digits(m));
                assert forall|k: int| 1 <= k < render(e).len() implies is_digit(render(e)[k]) by {
                    assert(render(e)[k] == digits(m)[k - 1]);
                }
            } else {
                assert(render(e) == digits(m));
                assert(is_digit(digits(m)[0]));
            }
        },
        ExprV::Ident(x) => {
            assert(render(e) == x);
            assert forall|k: int| 0 <= k < render(e).len() implies plain_char(
                #[trigger] render(e)[k],
            ) by {
                assert(is_ident_char(x[k]));
            }
        },
        ExprV::Bool(v) => {
            let t = seq!['t', 'r', 'u', 'e'];
            let f = seq!['f', 'a', 'l', 's', 'e'];
            assert(t[0] == 't' && t[1] == 'r' && t[2] == 'u' && t[3] == 'e');
            assert(f[0] == 'f' && f[1] == 'a' && f[2] == 'l' && f[3] == 's' && f[4] == 'e');
        },
        _ => {},
    }
}

/// The characters of a text.
pub fn chars_of(text: &str) -> (r: Vec<char>)
    ensures
        r@ == text@,
{
    let n = text.unicode_len();
    let mut v: Vec<char> = Vec::new();
    let mut k: usize = 0;
    while k < n
        invariant
            n == text@.len(),
            k <= n,
            v@ == text@.take(k as int),
        decreases n - k,
    {
        v.push(text.get_char(k));
        k = k + 1;
        assert(v@ =~= text@.take(k as int));
    }
    assert(text@.take(n as int) =~= text@);
    v
}

fn string_of(s: &Vec<char>, a: usize, b: usize) -> (r: String)
    requires
        a <= b <= s@.len(),
    ensures
        r@ == s@.subrange(a as int, b as int),
{
    let mut out = String::new();
    let mut k: usize = a;
    while k < b
        invariant
            a <= k <= b <= s@.len(),
            out@ == s@.subrange(a as int, k as int),
        decreases b - k,
    {
        push_char(&mut out, s[k]);
        k = k + 1;
        assert(out@ =~= s@.subrange(a as int, k as int));
    }
    out
}

fn word_eq(s: &Vec<char>, a: usize, b: usize, w: &Vec<char>) -> (r: bool)
    requires
        a <= b <= s@.len(),
    ensures
        r == (s@.subrange(a as int, b as int) == w@),
{
    if b - a != w.len() {
        return false;
    }
    let mut k: usize = 0;
    while k < w.len()
        invariant
            b - a == w@.len(),
            a <= b <= s@.len(),
            k <= w@.len(),
            forall|m: int| 0 <= m < k ==> s@[a + m] == w@[m],
        decreases w@.len() - k,
    {
        if s[a + k] != w[k] {
            assert(s@.subrange(a as int, b as int)[k as int] != w@[k as int]);
            return false;
        }
        k = k + 1;
    }
    assert(s@.subrange(a as int, b as int) =~= w@);
    true
}

fn digit_of(c: char) -> (r: Option<u64>)
    ensures
        match r {
            Some(d) => is_digit(c) && d == digit_val(c),
            None => !is_digit(c),
        },
{
    match c {
        '0' => Some(0),
        '1' => Some(1),
        '2' => Some(2),
        '3' => Some(3),
        '4' => Some(4),
        '5' => Some(5),
        '6' => Some(6),
        '7' => Some(7),
        '8' => Some(8),
        '9' => Some(9),
        _ => None,
    }
}

/// The digits of an integer's text: what follows a leading minus sign.
pub open spec fn digit_part(s: Seq<char>, a: int, b: int) -> Seq<char> {
    if s[a] == '-' {
        s.subrange(a + 1, b)
    } else {
        s.subrange(a, b)
    }
}

proof fn lemma_int_text(s: Seq<char>, a: int, b: int, n: int)
    requires
        0 <= a < b <= s.len(),
        i64::MIN <= n <= i64::MAX,
        render(ExprV::Int(n)) == s.subrange(a, b),
    ensures
        (n < 0) == (s[a] == '-'),
        n < 0 ==> a + 1 < b,
        digit_part(s, a, b) == digits((if n < 0 { -n } else { n }) as nat),
        forall|k: int|
            0 <= k < digit_part(s, a, b).len() ==> #[trigger] is_digit(digit_part(s, a, b)[k]),
        digit_part(s, a, b)[0] != '0' || digit_part(s, a, b).len() == 1,
        digits_val(digit_part(s, a, b)) == (if n < 0 { -n } else { n }),
{
    let m: nat = (if n < 0 { -n } else { n }) as nat;
    lemma_digits(m);
    assert(s[a] == s.subrange(a, b)[0]);
    if n >= 0 {
        assert(render(ExprV::Int(n)) == digits(m));
        assert(is_digit(digits(m)[0]));
        assert(digit_part(s, a, b) =~= digits(m));
    } else {
        assert(render(ExprV::Int(n)) == seq!['-'] + digits(m));
        assert(digit_part(s, a, b) =~= render(ExprV::Int(n)).subrange(1, b - a));
        assert(render(ExprV::Int(n)).subrange(1, b - a) =~= digits(m));
        if digits(m)[0] == '0' && digits(m).len() > 1 {
            assert(m == 0);
        }
    }
}

fn parse_int(s: &Vec<char>, a: usize, b: usize) -> (r: Option<i64>)
    requires
        a < b <= s@.len(),
    ensures
        match r {
            Some(n) => render(ExprV::Int(n as int)) == s@.subrange(a as int, b as int),
            None => forall|n: int|
                i64::MIN <= n <= i64::MAX ==> #[trigger] render(ExprV::Int(n)) != s@.subrange(
                    a as int,
                    b as int,
                ),
        },
{
    let neg = s[a] == '-';
    let start = if neg {
        a + 1
    } else {
        a
    };
    let ghost sub = s@.subrange(a as int, b as int);
    assert(digit_part(s@, a as int, b as int) == s@.subrange(start as int, b as int));
    if start == b {
        proof {
            assert forall|n: int| i64::MIN <= n <= i64::MAX implies #[trigger] render(
                ExprV::Int(n),
            ) != sub by {
                if render(ExprV::Int(n)) == sub {
                    lemma_int_text(s@, a as int, b as int, n);
                }
            }
        }
        return None;
    }
    if s[start] == '0' && b - start > 1 {
        proof {
            assert forall|n: int| i64::MIN <= n <= i64::MAX implies #[trigger] render(
                ExprV::Int(n),
            ) != sub by {
                if render(ExprV::Int(n)) == sub {
                    lemma_int_text(s@, a as int, b as int, n);
                    assert(s@.subrange(start as int, b as int)[0] == s@[start as int]);
                }
            }
        }
        return None;
    }
    let limit: u64 = if neg {
        9223372036854775808u64
    } else {
        9223372036854775807u64
    };
    let mut v: u64 = 0;
    let mut k: usize = start;
    while k < b
        invariant
            a <= start <= k <= b <= s@.len(),
            start == (if neg { a + 1 } else { a as int }),
            neg == (s@[a as int] == '-'),
            limit == (if neg { 9223372036854775808u64 } else { 9223372036854775807u64 }),
            v <= limit,
            v == digits_val(s@.subrange(start as int, k as int)),
            forall|m: int| start <= m < k ==> #[trigger] is_digit(s@[m]),
            sub == s@.subrange(a as int, b as int),
            digit_part(s@, a as int, b as int) == s@.subrange(start as int, b as int),
        decreases b - k,
    {
        let d = match digit_of(s[k]) {
            Some(d) => d,
            None => {
                proof {
                    assert forall|n: int| i64::MIN <= n <= i64::MAX implies #[trigger] render(
                        ExprV::Int(n),
                    ) != sub by {
                        if render(ExprV::Int(n)) == sub {
                            lemma_int_text(s@, a as int, b as int, n);
                            assert(s@.subrange(start as int, b as int)[k - start] == s@[k as int]);
                            assert(is_digit(digit_part(s@, a as int, b as int)[k - start]));
                        }
                    }
                }
                return None;
            },
        };
        proof {
            let pre = s@.subrange(start as int, k + 1);
            assert(pre.drop_last() =~= s@.subrange(start as int, k as int));
        }
        if v > (limit - d) / 10 {
            proof {
                assert(v * 10 + d > limit) by (nonlinear_arith)
                    requires
                        v > (limit - d) / 10,
                        d <= 9,
                        limit >= 9,
                ;
                assert forall|n: int| i64::MIN <= n <= i64::MAX implies #[trigger] render(
                    ExprV::Int(n),
                ) != sub by {
                    if render(ExprV::Int(n)) == sub {
                        lemma_int_text(s@, a as int, b as int, n);
                        let ds = s@.subrange(start as int, b as int);
                        lemma_val_prefix(ds, k + 1 - start);
                        assert(ds.take(k + 1 - start) =~= s@.subrange(start as int, k + 1));
                    }
                }
            }
            return None;
        }
        proof {
            assert(v * 10 + d <= limit) by (nonlinear_arith)
                requires
                    v <= (limit - d) / 10,
                    d <= 9,
                    limit >= 9,
            ;
        }
        v = v * 10 + d;
        k = k + 1;
    }
    let ghost ds = s@.subrange(start as int, b as int);
    if neg && v == 0 {
        proof {
            assert forall|n: int| i64::MIN <= n <= i64::MAX implies #[trigger] render(
                ExprV::Int(n),
            ) != sub by {
                if render(ExprV::Int(n)) == sub {
                    lemma_int_text(s@, a as int, b as int, n);
                }
            }
        }
        return None;
    }
    proof {
        assert forall|m: int| 0 <= m < ds.len() implies #[trigger] is_digit(ds[m]) by {
            assert(ds[m] == s@[start + m]);
        }
        assert(ds[0] == s@[start as int]);
        lemma_val_digits(ds);
    }
    let n: i64 = if neg {
        if v == 9223372036854775808u64 {
            i64::MIN
        } else {
            -(v as i64)
        }
    } else {
        v as i64
    };
    proof {
        if neg {
            assert(s@.subrange(a as int, b as int) =~= seq!['-'] + ds);
        } else {
            assert(s@.subrange(a as int, b as int) =~= ds);
        }
    }
    Some(n)
}


/// What the parsers of one construct promise: on success, the expression
/// written at `i` and the position after it; and whenever `s` holds the text
/// of an expression at `i`, success with that expression.
pub open spec fn parses_at(s: Seq<char>, i: int, r: Result<(Expr, usize), PolicyError>) -> bool {
    &&& match r {
        Ok((e, j)) => {
            &&& well_formed(e@)
            &&& j == i + render(e@).len()
            &&& j <= s.len()
            &&& s.subrange(i, j as int) == render(e@)
        },
        Err(err) => err is SyntaxError,
    }
    &&& forall|e2: ExprV| #[trigger]
        rendered_at(s, i, e2) ==> match r {
            Ok((e, _)) => e@ == e2,
            Err(_) => false,
        }
}

proof fn lemma_true_false()
    ensures
        seq!['t', 'r', 'u', 'e'][0] == 't',
        seq!['f', 'a', 'l', 's', 'e'][0] == 'f',
        seq!['t', 'r', 'u', 'e'] != seq!['f', 'a', 'l', 's', 'e'],
{
    assert(seq!['t', 'r', 'u', 'e'].len() != seq!['f', 'a', 'l', 's', 'e'].len());
}

fn parse_word(s: &Vec<char>, i: usize) -> (r: Result<(Expr, usize), PolicyError>)
    requires
        i < s@.len(),
        s@[i as int] != '(',
        s@[i as int] != '"',
    ensures
        parses_at(s@, i as int, r),
{
    let len = s.len();
    let mut k: usize = i;
    while k < len && s[k] != ' ' && s[k] != ')'
        invariant
            i <= k <= len == s@.len(),
            forall|m: int| i <= m < k ==> s@[m] != ' ' && s@[m] != ')',
        decreases len - k,
    {
        k = k + 1;
    }
    let ghost tok = s@.subrange(i as int, k as int);
    proof {
        lemma_true_false();
        assert forall|e2: ExprV| #[trigger] rendered_at(s@, i as int, e2) implies render(e2) == tok
            && (e2 is Bool || e2 is Int || e2 is Ident) && (render(e2)[0] == s@[i as int]) by {
            lemma_render_shape(e2);
            let l = render(e2).len() as int;
            assert(s@[i as int] == s@.subrange(i as int, i + l)[0]);
            if k < i + l {
                assert(s@[k as int] == s@.subrange(i as int, i + l)[k - i]);
                assert(plain_char(render(e2)[k - i]));
            }
            if k > i + l {
                assert(i <= i + l < k);
            }
        }
    }
    if k == i {
        proof {
            assert forall|e2: ExprV| !#[trigger] rendered_at(s@, i as int, e2) by {
                if rendered_at(s@, i as int, e2) {
                    lemma_render_shape(e2);
                }
            }
        }
        return Err(PolicyError::SyntaxError { position: i });
    }
    let c = s[i];
    let true_word: Vec<char> = vec!['t', 'r', 'u', 'e'];
    let false_word: Vec<char> = vec!['f', 'a', 'l', 's', 'e'];
    if word_eq(s, i, k, &true_word) {
        let e = Expr::Bool(true);
        proof {
            assert forall|e2: ExprV| #[trigger] rendered_at(s@, i as int, e2) implies e@ == e2 by {
                lemma_render_shape(e2);
                assert(tok[0] == 't');
                if let ExprV::Int(n) = e2 {
                    lemma_int_text(s@, i as int, k as int, n);
                    assert(s@[i as int] == tok[0]);
                }
            }
        }
        return Ok((e, k));
    }
    if word_eq(s, i, k, &false_word) {
        let e = Expr::Bool(false);
        proof {
            assert forall|e2: ExprV| #[trigger] rendered_at(s@, i as int, e2) implies e@ == e2 by {
                lemma_render_shape(e2);
                assert(tok[0] == 'f');
                if let ExprV::Int(n) = e2 {
                    lemma_int_text(s@, i as int, k as int, n);
                    assert(s@[i as int] == tok[0]);
                }
            }
        }
        return Ok((e, k));
    }
    if c == '-' || ('0' <= c && c <= '9') {
        match parse_int(s, i, k) {
            Some(n) => {
                let e = Expr::Int(n);
                proof {
                    assert forall|e2: ExprV| #[trigger] rendered_at(s@, i as int, e2) implies e@
                        == e2 by {
                        lemma_render_shape(e2);
                        if let ExprV::Int(n2) = e2 {
                            lemma_int_text(s@, i as int, k as int, n2);
                            lemma_int_text(s@, i as int, k as int, n as int);
                        } else if let ExprV::Ident(x) = e2 {
                            assert(is_ident_start(x[0]));
                        }
                    }
                }
                return Ok((e, k));
            },
            None => {
                proof {
                    assert forall|e2: ExprV| !#[trigger] rendered_at(s@, i as int, e2) by {
                        if rendered_at(s@, i as int, e2) {
                            lemma_render_shape(e2);
                            if let ExprV::Ident(x) = e2 {
                                assert(is_ident_start(x[0]));
                            } else if let ExprV::Int(n) = e2 {
                                assert(render(ExprV::Int(n)) != tok);
                            } else if let ExprV::Bool(v) = e2 {
                                assert(render(e2)[0] == 't' || render(e2)[0] == 'f');
                            }
                        }
                    }
                }
                return Err(PolicyError::SyntaxError { position: i });
            },
        }
    }
    let start_ok = ('a' <= c && c <= 'z') || ('A' <= c && c <= 'Z') || c == '_';
    let mut m: usize = i;
    while m < k
        invariant
            i <= m <= k <= s@.len(),
            forall|q: int| i <= q < m ==> #[trigger] is_ident_char(s@[q]),
            tok == s@.subrange(i as int, k as int),
            s@[i as int] == c,
            c == '-' || ('0' <= c && c <= '9') ==> false,
            forall|e2: ExprV| #[trigger]
                rendered_at(s@, i as int, e2) ==> render(e2) == tok && (e2 is Bool || e2 is Int
                    || e2 is Ident) && (render(e2)[0] == s@[i as int]),
        decreases k - m,
    {
        let d = s[m];
        if !(('a' <= d && d <= 'z') || ('A' <= d && d <= 'Z') || ('0' <= d && d <= '9') || d
            == '_' || d == '.' || d == '-') {
            proof {
                assert forall|e2: ExprV| !#[trigger] rendered_at(s@, i as int, e2) by {
                    if rendered_at(s@, i as int, e2) {
                        lemma_render_shape(e2);
                        if let ExprV::Ident(x) = e2 {
                            assert(render(e2) == x);
                            assert(x[m - i] == s@[m as int]);
                            assert(is_ident_char(x[m - i]));
                        } else if let ExprV::Int(n) = e2 {
                            lemma_int_text(s@, i as int, k as int, n);
                        }
                    }
                }
            }
            return Err(PolicyError::SyntaxError { position: m });
        }
        m = m + 1;
    }
    if !start_ok {
        proof {
            assert forall|e2: ExprV| !#[trigger] rendered_at(s@, i as int, e2) by {
                if rendered_at(s@, i as int, e2) {
                    lemma_render_shape(e2);
                    if let ExprV::Int(n) = e2 {
                        lemma_int_text(s@, i as int, k as int, n);
                    } else if let ExprV::Bool(v) = e2 {
                        assert(render(e2)[0] == 't' || render(e2)[0] == 'f');
                    }
                }
            }
        }
        return Err(PolicyError::SyntaxError { position: i });
    }
    let name = string_of(s, i, k);
    let e = Expr::Ident(name);
    proof {
        assert(tok[0] == c);
        assert forall|q: int| 0 <= q < tok.len() implies #[trigger] is_ident_char(tok[q]) by {
            assert(tok[q] == s@[i + q]);
        }
        assert(valid_ident(tok));
        assert forall|e2: ExprV| #[trigger] rendered_at(s@, i as int, e2) implies e@ == e2 by {
            lemma_render_shape(e2);
            if let ExprV::Int(n) = e2 {
                lemma_int_text(s@, i as int, k as int, n);
            }
        }
    }
    Ok((e, k))
}


fn parse_quoted(s: &Vec<char>, i: usize) -> (r: Result<(Expr, usize), PolicyError>)
    requires
        i < s@.len(),
        s@[i as int] == '"',
    ensures
        parses_at(s@, i as int, r),
{
    let len = s.len();
    let mut j: usize = i + 1;
    while j < len && s[j] != '"'
        invariant
            i + 1 <= j <= len == s@.len(),
            forall|m: int| i + 1 <= m < j ==> s@[m] != '"',
        decreases len - j,
    {
        j = j + 1;
    }
    proof {
        assert forall|e2: ExprV| #[trigger] rendered_at(s@, i as int, e2) implies (match e2 {
            ExprV::Str(x) => j == i + 1 + x.len() && x == s@.subrange(i + 1, j as int),
            _ => false,
        }) by {
            lemma_render_shape(e2);
            assert(s@[i as int] == s@.subrange(i as int, i + render(e2).len())[0]);
            if let ExprV::Str(x) = e2 {
                let l = render(e2).len() as int;
                let xl = x.len() as int;
                lemma_sub(s@, i as int, render(e2), 1, 1 + xl);
                assert(render(e2).subrange(1, 1 + xl) =~= x);
                assert(s@[i + 1 + xl] == s@.subrange(i as int, i + l)[1 + xl]);
                if j < i + 1 + x.len() {
                    assert(s@[j as int] == x[j - i - 1]);
                }
            }
        }
    }
    if j >= len {
        return Err(PolicyError::SyntaxError { position: i });
    }
    let text = string_of(s, i + 1, j);
    let e = Expr::Str(text);
    proof {
        assert forall|k: int| 0 <= k < text@.len() implies #[trigger] text@[k] != '"' by {
            assert(text@[k] == s@[i + 1 + k]);
        }
        assert(s@.subrange(i as int, j + 1) =~= seq!['"'] + text@ + seq!['"']);
    }
    Ok((e, j + 1))
}

/// The operator that a word names, if any.
pub open spec fn op_of_name(w: Seq<char>) -> Option<BinOp> {
    if w == op_name(BinOp::And) {
        Some(BinOp::And)
    } else if w == op_name(BinOp::Or) {
        Some(BinOp::Or)
    } else if w == op_name(BinOp::Eq) {
        Some(BinOp::Eq)
    } else if w == op_name(BinOp::Ne) {
        Some(BinOp::Ne)
    } else if w == op_name(BinOp::Lt) {
        Some(BinOp::Lt)
    } else if w == op_name(BinOp::Le) {
        Some(BinOp::Le)
    } else if w == op_name(BinOp::Gt) {
        Some(BinOp::Gt)
    } else if w == op_name(BinOp::Ge) {
        Some(BinOp::Ge)
    } else {
        None
    }
}

proof fn lemma_op_names(op: BinOp)
    ensures
        op_of_name(op_name(op)) == Some(op),
        op_of_name(not_word()) is None,
        not_word().len() == 3,
        op_name(op).len() >= 1,
        forall|q: int| 0 <= q < op_name(op).len() ==> #[trigger] op_name(op)[q] != ' ',
        forall|q: int| 0 <= q < not_word().len() ==> #[trigger] not_word()[q] != ' ',
{
    assert(op_name(BinOp::And)[0] == 'a' && op_name(BinOp::Or)[0] == 'o' && op_name(BinOp::Eq)[0]
        == '=' && op_name(BinOp::Ne)[0] == '!' && op_name(BinOp::Lt)[0] == '<' && op_name(
        BinOp::Le,
    )[0] == '<' && op_name(BinOp::Gt)[0] == '>' && op_name(BinOp::Ge)[0] == '>' && not_word()[0]
        == 'n');
    assert(op_name(BinOp::And).len() == 3 && op_name(BinOp::Or).len() == 2 && op_name(
        BinOp::Eq,
    ).len() == 1 && op_name(BinOp::Ne).len() == 2 && op_name(BinOp::Lt).len() == 1 && op_name(
        BinOp::Le,
    ).len() == 2 && op_name(BinOp::Gt).len() == 1 && op_name(BinOp::Ge).len() == 2
        && not_word().len() == 3);
    assert(op_name(BinOp::And)[1] == 'n' && op_name(BinOp::And)[2] == 'd' && op_name(BinOp::Or)[1]
        == 'r' && op_name(BinOp::Ne)[1] == '=' && op_name(BinOp::Le)[1] == '=' && op_name(
        BinOp::Ge,
    )[1] == '=' && not_word()[1] == 'o' && not_word()[2] == 't');
}

fn op_from_word(s: &Vec<char>, a: usize, b: usize) -> (r: Option<BinOp>)
    requires
        a <= b <= s@.len(),
    ensures
        r == op_of_name(s@.subrange(a as int, b as int)),
{
    let w_and: Vec<char> = vec!['a', 'n', 'd'];
    assert(w_and@ =~= op_name(BinOp::And));
    if word_eq(s, a, b, &w_and) {
        return Some(BinOp::And);
    }
    let w_or: Vec<char> = vec!['o', 'r'];
    assert(w_or@ =~= op_name(BinOp::Or));
    if word_eq(s, a, b, &w_or) {
        return Some(BinOp::Or);
    }
    let w_eq: Vec<char> = vec!['='];
    assert(w_eq@ =~= op_name(BinOp::Eq));
    if word_eq(s, a, b, &w_eq) {
        return Some(BinOp::Eq);
    }
    let w_ne: Vec<char> = vec!['!', '='];
    assert(w_ne@ =~= op_name(BinOp::Ne));
    if word_eq(s, a, b, &w_ne) {
        return Some(BinOp::Ne);
    }
    let w_lt: Vec<char> = vec!['<'];
    assert(w_lt@ =~= op_name(BinOp::Lt));
    if word_eq(s, a, b, &w_lt) {
        return Some(BinOp::Lt);
    }
    let w_le: Vec<char> = vec!['<', '='];
    assert(w_le@ =~= op_name(BinOp::Le));
    if word_eq(s, a, b, &w_le) {
        return Some(BinOp::Le);
    }
    let w_gt: Vec<char> = vec!['>'];
    assert(w_gt@ =~= op_name(BinOp::Gt));
    if word_eq(s, a, b, &w_gt) {
        return Some(BinOp::Gt);
    }
    let w_ge: Vec<char> = vec!['>', '='];
    assert(w_ge@ =~= op_name(BinOp::Ge));
    if word_eq(s, a, b, &w_ge) {
        return Some(BinOp::Ge);
    }
    None
}


/// The word that opens the text of a combinator.
pub open spec fn head_word(e: ExprV) -> Seq<char> {
    match e {
        ExprV::Not(_) => not_word(),
        ExprV::Binary(op, _, _) => op_name(op),
        _ => Seq::empty(),
    }
}

proof fn lemma_compound_parts(s: Seq<char>, i: int, e2: ExprV)
    requires
        rendered_at(s, i, e2),
        e2 is Not || e2 is Binary,
    ensures
        s[i] == '(',
        head_word(e2).len() >= 1,
        s.subrange(i + 1, i + 1 + head_word(e2).len()) == head_word(e2),
        forall|q: int|
            i + 1 <= q < i + 1 + head_word(e2).len() ==> #[trigger] s[q] != ' ',
        s[i + 1 + head_word(e2).len()] == ' ',
        match e2 {
            ExprV::Not(a) => {
                &&& rendered_at(s, i + 5, *a)
                &&& s[i + 5 + render(*a).len()] == ')'
                &&& render(e2).len() == 6 + render(*a).len()
            },
            ExprV::Binary(op, a, c) => {
                &&& rendered_at(s, i + 2 + op_name(op).len(), *a)
                &&& s[i + 2 + op_name(op).len() + render(*a).len()] == ' '
                &&& rendered_at(s, i + 3 + op_name(op).len() + render(*a).len(), *c)
                &&& s[i + 3 + op_name(op).len() + render(*a).len() + render(*c).len()] == ')'
                &&& render(e2).len() == 4 + op_name(op).len() + render(*a).len() + render(
                    *c,
                ).len()
            },
            _ => true,
        },
{
    let r = render(e2);
    let l = r.len() as int;
    let h = head_word(e2);
    let hl = h.len() as int;
    match e2 {
        ExprV::Not(a) => {
            lemma_op_names(BinOp::And);
        },
        ExprV::Binary(op, a, c) => {
            lemma_op_names(op);
        },
        _ => {},
    }
    assert(s[i] == s.subrange(i, i + l)[0]);
    lemma_sub(s, i, r, 1, 1 + hl);
    assert(r.subrange(1, 1 + hl) =~= h);
    assert forall|q: int| i + 1 <= q < i + 1 + hl implies #[trigger] s[q] != ' ' by {
        assert(s[q] == s.subrange(i + 1, i + 1 + hl)[q - i - 1]);
    }
    assert(s[i + 1 + hl] == s.subrange(i, i + l)[1 + hl]);
    match e2 {
        ExprV::Not(a) => {
            let la = render(*a).len() as int;
            lemma_sub(s, i, r, 5, 5 + la);
            assert(r.subrange(5, 5 + la) =~= render(*a));
            assert(s[i + 5 + la] == s.subrange(i, i + l)[5 + la]);
        },
        ExprV::Binary(op, a, c) => {
            let la = render(*a).len() as int;
            let lc = render(*c).len() as int;
            lemma_sub(s, i, r, 2 + hl, 2 + hl + la);
            assert(r.subrange(2 + hl, 2 + hl + la) =~= render(*a));
            assert(s[i + 2 + hl + la] == s.subrange(i, i + l)[2 + hl + la]);
            lemma_sub(s, i, r, 3 + hl + la, 3 + hl + la + lc);
            assert(r.subrange(3 + hl + la, 3 + hl + la + lc) =~= render(*c));
            assert(s[i + 3 + hl + la + lc] == s.subrange(i, i + l)[3 + hl + la + lc]);
        },
        _ => {},
    }
}

fn parse_compound(s: &Vec<char>, i: usize) -> (r: Result<(Expr, usize), PolicyError>)
    requires
        i < s@.len(),
        s@[i as int] == '(',
    ensures
        parses_at(s@, i as int, r),
    decreases s@.len() - i, 2int,
{
    let len = s.len();
    let mut j: usize = i + 1;
    while j < len && s[j] != ' '
        invariant
            i + 1 <= j <= len == s@.len(),
            forall|m: int| i + 1 <= m < j ==> s@[m] != ' ',
        decreases len - j,
    {
        j = j + 1;
    }
    proof {
        assert forall|e2: ExprV| #[trigger] rendered_at(s@, i as int, e2) implies (e2 is Not
            || e2 is Binary) && j == i + 1 + head_word(e2).len() && j < len && s@.subrange(
            i + 1,
            j as int,
        ) == head_word(e2) by {
            lemma_render_shape(e2);
            lemma_compound_parts(s@, i as int, e2);
            let hl = head_word(e2).len() as int;
            if j < i + 1 + hl {
                assert(s@[j as int] != ' ');
            }
        }
    }
    if j >= len {
        return Err(PolicyError::SyntaxError { position: i });
    }
    let not_w: Vec<char> = vec!['n', 'o', 't'];
    assert(not_w@ =~= not_word());
    if word_eq(s, i + 1, j, &not_w) {
        proof {
            assert forall|e2: ExprV| #[trigger] rendered_at(s@, i as int, e2) implies e2 is Not by {
                if let ExprV::Binary(op, _, _) = e2 {
                    lemma_op_names(op);
                }
            }
        }
        return parse_not(s, i, j);
    }
    let op = match op_from_word(s, i + 1, j) {
        Some(op) => op,
        None => {
            proof {
                assert forall|e2: ExprV| !#[trigger] rendered_at(s@, i as int, e2) by {
                    if rendered_at(s@, i as int, e2) {
                        if let ExprV::Binary(op2, _, _) = e2 {
                            lemma_op_names(op2);
                        }
                    }
                }
            }
            return Err(PolicyError::SyntaxError { position: i + 1 });
        },
    };
    parse_binary(s, i, j, op)
}

fn parse_not(s: &Vec<char>, i: usize, j: usize) -> (r: Result<(Expr, usize), PolicyError>)
    requires
        i < j < s@.len(),
        s@[i as int] == '(',
        s@[j as int] == ' ',
        s@.subrange(i + 1, j as int) == not_word(),
        forall|e2: ExprV| #[trigger] rendered_at(s@, i as int, e2) ==> e2 is Not && j == i + 1
            + head_word(e2).len(),
    ensures
        parses_at(s@, i as int, r),
    decreases s@.len() - i, 0int,
{
    let len = s.len();
    proof {
        lemma_op_names(BinOp::And);
        assert forall|e2: ExprV| #[trigger] rendered_at(s@, i as int, e2) implies (match e2 {
            ExprV::Not(a2) => rendered_at(s@, j + 1, *a2),
            _ => false,
        }) by {
            lemma_compound_parts(s@, i as int, e2);
        }
    }
    let (a, k) = match parse_at(s, j + 1) {
        Ok(x) => x,
        Err(err) => {
            proof {
                assert forall|e2: ExprV| !#[trigger] rendered_at(s@, i as int, e2) by {
                    if rendered_at(s@, i as int, e2) {
                        if let ExprV::Not(a2) = e2 {
                            assert(rendered_at(s@, j + 1, *a2));
                        }
                    }
                }
            }
            return Err(err);
        },
    };
    proof {
        assert forall|e2: ExprV| #[trigger] rendered_at(s@, i as int, e2) implies (match e2 {
            ExprV::Not(a2) => a@ == *a2 && k == i + 5 + render(*a2).len(),
            _ => false,
        }) by {
            lemma_compound_parts(s@, i as int, e2);
        }
    }
    if k >= len || s[k] != ')' {
        proof {
            assert forall|e2: ExprV| !#[trigger] rendered_at(s@, i as int, e2) by {
                if rendered_at(s@, i as int, e2) {
                    lemma_compound_parts(s@, i as int, e2);
                }
            }
        }
        return Err(PolicyError::SyntaxError { position: k });
    }
    let e = Expr::Not(Box::new(a));
    proof {
        assert(s@.subrange(i as int, k + 1) =~= seq!['('] + not_word() + seq![' '] + render(a@)
            + seq![')']);
        assert forall|e2: ExprV| #[trigger] rendered_at(s@, i as int, e2) implies e@ == e2 by {
            lemma_compound_parts(s@, i as int, e2);
        }
    }
    Ok((e, k + 1))
}

fn parse_binary(s: &Vec<char>, i: usize, j: usize, op: BinOp) -> (r: Result<(Expr, usize), PolicyError>)
    requires
        i < j < s@.len(),
        s@[i as int] == '(',
        s@[j as int] == ' ',
        s@.subrange(i + 1, j as int) == op_name(op),
        forall|e2: ExprV| #[trigger] rendered_at(s@, i as int, e2) ==> (e2 is Not || e2 is Binary)
            && j == i + 1 + head_word(e2).len() && s@.subrange(i + 1, j as int) == head_word(e2),
    ensures
        parses_at(s@, i as int, r),
    decreases s@.len() - i, 1int,
{
    let len = s.len();
    proof {
        lemma_op_names(op);
        assert forall|e2: ExprV| #[trigger] rendered_at(s@, i as int, e2) implies (match e2 {
            ExprV::Binary(op2, _, _) => op2 == op && j == i + 1 + op_name(op).len(),
            _ => false,
        }) by {
            if let ExprV::Binary(op2, _, _) = e2 {
                lemma_op_names(op2);
            }
        }
    }
    proof {
        assert forall|e2: ExprV| #[trigger] rendered_at(s@, i as int, e2) implies (match e2 {
            ExprV::Binary(_, a2, _) => rendered_at(s@, j + 1, *a2),
            _ => false,
        }) by {
            lemma_compound_parts(s@, i as int, e2);
        }
    }
    let (a, k1) = match parse_at(s, j + 1) {
        Ok(x) => x,
        Err(err) => {
            proof {
                assert forall|e2: ExprV| !#[trigger] rendered_at(s@, i as int, e2) by {
                    if rendered_at(s@, i as int, e2) {
                        if let ExprV::Binary(_, a2, _) = e2 {
                            assert(rendered_at(s@, j + 1, *a2));
                        }
                    }
                }
            }
            return Err(err);
        },
    };
    proof {
        assert forall|e2: ExprV| #[trigger] rendered_at(s@, i as int, e2) implies (match e2 {
            ExprV::Binary(_, a2, c2) => a@ == *a2 && k1 == j + 1 + render(*a2).len(),
            _ => false,
        }) by {
            lemma_compound_parts(s@, i as int, e2);
        }
    }
    if k1 >= len || s[k1] != ' ' {
        proof {
            assert forall|e2: ExprV| !#[trigger] rendered_at(s@, i as int, e2) by {
                if rendered_at(s@, i as int, e2) {
                    lemma_compound_parts(s@, i as int, e2);
                }
            }
        }
        return Err(PolicyError::SyntaxError { position: k1 });
    }
    proof {
        assert(s@.subrange(i as int, k1 as int) =~= seq!['('] + op_name(op) + seq![' '] + render(
            a@,
        ));
        assert forall|e2: ExprV| #[trigger] rendered_at(s@, i as int, e2) implies (match e2 {
            ExprV::Binary(op2, a2, c2) => {
                &&& op2 == op
                &&& *a2 == a@
                &&& rendered_at(s@, k1 + 1, *c2)
                &&& s@[k1 + 1 + render(*c2).len()] == ')'
            },
            _ => false,
        }) by {
            lemma_compound_parts(s@, i as int, e2);
        }
    }
    parse_binary_rest(s, i, op, a, k1)
}

fn parse_binary_rest(s: &Vec<char>, i: usize, op: BinOp, a: Expr, k1: usize) -> (r: Result<
    (Expr, usize),
    PolicyError,
>)
    requires
        i < k1 < s@.len(),
        s@[k1 as int] == ' ',
        well_formed(a@),
        s@.subrange(i as int, k1 as int) == seq!['('] + op_name(op) + seq![' '] + render(a@),
        forall|e2: ExprV| #[trigger]
            rendered_at(s@, i as int, e2) ==> (match e2 {
                ExprV::Binary(op2, a2, c2) => {
                    &&& op2 == op
                    &&& *a2 == a@
                    &&& rendered_at(s@, k1 + 1, *c2)
                    &&& s@[k1 + 1 + render(*c2).len()] == ')'
                },
                _ => false,
            }),
    ensures
        parses_at(s@, i as int, r),
    decreases s@.len() - i, 0int,
{
    let len = s.len();
    proof {
        assert forall|e2: ExprV| #[trigger] rendered_at(s@, i as int, e2) implies (match e2 {
            ExprV::Binary(_, _, c2) => rendered_at(s@, k1 + 1, *c2),
            _ => false,
        }) by {
        }
    }
    let (c, k2) = match parse_at(s, k1 + 1) {
        Ok(x) => x,
        Err(err) => {
            proof {
                assert forall|e2: ExprV| !#[trigger] rendered_at(s@, i as int, e2) by {
                    if rendered_at(s@, i as int, e2) {
                        if let ExprV::Binary(_, _, c2) = e2 {
                            assert(rendered_at(s@, k1 + 1, *c2));
                        }
                    }
                }
            }
            return Err(err);
        },
    };
    proof {
        assert forall|e2: ExprV| #[trigger] rendered_at(s@, i as int, e2) implies (match e2 {
            ExprV::Binary(_, a2, c2) => c@ == *c2 && k2 == k1 + 1 + render(*c2).len(),
            _ => false,
        }) by {
        }
    }
    if k2 >= len || s[k2] != ')' {
        proof {
            assert forall|e2: ExprV| !#[trigger] rendered_at(s@, i as int, e2) by {
                if rendered_at(s@, i as int, e2) {
                        }
            }
        }
        return Err(PolicyError::SyntaxError { position: k2 });
    }
    let e = Expr::Binary(op, Box::new(a), Box::new(c));
    proof {
        assert(s@.subrange(i as int, k2 + 1) =~= s@.subrange(i as int, k1 as int) + seq![' ']
            + s@.subrange(k1 + 1, k2 as int) + seq![')']);
        assert(s@.subrange(i as int, k2 + 1) =~= seq!['('] + op_name(op) + seq![' '] + render(a@)
            + seq![' '] + render(c@) + seq![')']);
    }
    Ok((e, k2 + 1))
}

fn parse_at(s: &Vec<char>, i: usize) -> (r: Result<(Expr, usize), PolicyError>)
    requires
        i <= s@.len(),
    ensures
        parses_at(s@, i as int, r),
        r matches Ok((_, j)) ==> stops_at(s@, j as int),
    decreases s@.len() - i, 3int,
{
    let len = s.len();
    if i >= len {
        proof {
            assert forall|e2: ExprV| !#[trigger] rendered_at(s@, i as int, e2) by {
                if rendered_at(s@, i as int, e2) {
                    lemma_render_shape(e2);
                }
            }
        }
        return Err(PolicyError::SyntaxError { position: i });
    }
    let c = s[i];
    let r0 = if c == '(' {
        parse_compound(s, i)
    } else if c == '"' {
        parse_quoted(s, i)
    } else {
        parse_word(s, i)
    };
    match r0 {
        Ok((e, j)) => {
            if j == len || s[j] == ' ' || s[j] == ')' {
                Ok((e, j))
            } else {
                Err(PolicyError::SyntaxError { position: j })
            }
        },
        Err(err) => Err(err),
    }
}

/// Parses the text form of an expression. Succeeds exactly on the canonical
/// texts of well-formed expressions, with the one expression written there;
/// any other text gives `SyntaxError`.
pub fn parse_expr(text: &str) -> (r: Result<Expr, PolicyError>)
    ensures
        match r {
            Ok(e) => {
                &&& well_formed(e@)
                &&& render(e@) == text@
                &&& forall|e2: ExprV| well_formed(e2) && #[trigger] render(e2) == text@ ==> e2 == e@
            },
            Err(err) => {
                &&& err is SyntaxError
                &&& forall|e2: ExprV| well_formed(e2) ==> #[trigger] render(e2) != text@
            },
        },
{
    let s = chars_of(text);
    let r = parse_at(&s, 0);
    proof {
        assert forall|e2: ExprV| well_formed(e2) && #[trigger] render(e2) == text@ implies rendered_at(
            s@,
            0,
            e2,
        ) by {
            assert(s@.subrange(0, s@.len() as int) =~= s@);
        }
    }
    match r {
        Ok((e, j)) => {
            if j == s.len() {
                assert(s@.subrange(0, j as int) =~= s@);
                Ok(e)
            } else {
                Err(PolicyError::SyntaxError { position: j })
            }
        },
        Err(err) => Err(err),
    }
}

} // verus!
