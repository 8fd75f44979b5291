//! Remote backend status: the registered-server directory, the snapshot of
//! liveness data the poller republishes, and the two-step binary status
//! exchange (handshake and status request, length-prefixed, with the
//! response's JSON document length-checked and tag-checked).

use vstd::prelude::*;

use crate::digits::{dec_str, dec_val, dec_bytes, all_digits, lemma_dec_round_trip,
    lemma_dec_val_nonneg, parse_u64_range, append_u64_bytes};
use crate::varint::{varint_i32, varint_bytes, write_varint, u32_of_i32, read_varint_at,
    vterm_at, group_val, lemma_vterm_unique};

verus! {

/// The liveness snapshot of one remote server. Absent data reads as
/// offline with zero players.
#[derive(Clone, Copy)]
pub struct ServerStatus {
    pub online: bool,
    pub players_online: u32,
    pub players_max: u32,
}

impl Default for ServerStatus {
    /// The reading for a server with no snapshot: offline, no players.
    fn default() -> (r: Self)
        ensures
            !r.online,
            r.players_online == 0,
            r.players_max == 0,
    {
        ServerStatus { online: false, players_online: 0, players_max: 0 }
    }
}

/// A numeric host address and port.
#[derive(Clone, Copy, PartialEq, Eq, Structural)]
pub struct ServerAddress {
    pub a: u8,
    pub b: u8,
    pub c: u8,
    pub d: u8,
    pub port: u16,
}

/// The canonical text of an address: four dotted decimal octets, a colon,
/// and the decimal port, no leading zeros anywhere.
pub open spec fn render_address(ad: ServerAddress) -> Seq<char> {
    dec_str(ad.a as int) + seq!['.'] + dec_str(ad.b as int) + seq!['.'] + dec_str(ad.c as int)
        + seq!['.'] + dec_str(ad.d as int) + seq![':'] + dec_str(ad.port as int)
}

/// A nonzero-leading (or single-zero) digit string below the bound reads
/// back as its own canonical rendering.
proof fn lemma_dec_canon(s: Seq<char>)
    requires
        s.len() >= 1,
        all_digits(s),
        s[0] != '0' || s.len() == 1,
    ensures
        dec_str(dec_val(s)) == s,
    decreases s.len(),
{
    lemma_dec_val_nonneg(s);
    if s.len() == 1 {
        assert(dec_val(s) == dec_val(s.drop_last()) * 10 + crate::digits::digit_val(s.last()));
        assert(s.drop_last() =~= Seq::<char>::empty());
        assert(dec_val(s) == crate::digits::digit_val(s[0]));
        assert(dec_val(s) < 10);
        assert(dec_str(dec_val(s)) =~= s);
    } else {
        let p = s.drop_last();
        assert(p[0] == s[0]);
        assert(all_digits(p)) by {
            assert forall|i: int| 0 <= i < p.len() implies crate::digits::is_digit(
                #[trigger] p[i],
            ) by {
                assert(p[i] == s[i]);
            }
        }
        lemma_dec_canon(p);
        lemma_dec_val_pos(p);
        assert(dec_val(s) == dec_val(p) * 10 + crate::digits::digit_val(s.last()));
        assert(dec_val(p) * 10 >= 10) by (nonlinear_arith)
            requires
                dec_val(p) >= 1,
        ;
        assert(dec_val(s) >= 10);
        assert(dec_val(s) / 10 == dec_val(p) && dec_val(s) % 10 == crate::digits::digit_val(
            s.last(),
        )) by {
            vstd::arithmetic::div_mod::lemma_fundamental_div_mod_converse(
                dec_val(s),
                10,
                dec_val(p),
                crate::digits::digit_val(s.last()),
            );
        }
        assert(dec_str(dec_val(s)) == dec_str(dec_val(p)).push(
            crate::digits::digit_char(dec_val(s) % 10),
        ));
        assert(crate::digits::digit_char(crate::digits::digit_val(s.last())) == s.last());
        assert(dec_str(dec_val(s)) =~= s);
    }
}

/// A digit string that does not start with `0` has a positive value.
proof fn lemma_dec_val_pos(s: Seq<char>)
    requires
        s.len() >= 1,
        all_digits(s),
        s[0] != '0',
    ensures
        dec_val(s) >= 1,
    decreases s.len(),
{
    if s.len() == 1 {
        assert(s.drop_last() =~= Seq::<char>::empty());
        assert(dec_val(Seq::<char>::empty()) == 0);
        assert(s.last() == s[0]);
        assert(dec_val(s) == crate::digits::digit_val(s[0]));
        assert(crate::digits::digit_val(s[0]) >= 1);
    } else {
        let p = s.drop_last();
        assert(p[0] == s[0]);
        assert(all_digits(p)) by {
            assert forall|i: int| 0 <= i < p.len() implies crate::digits::is_digit(
                #[trigger] p[i],
            ) by {
                assert(p[i] == s[i]);
            }
        }
        lemma_dec_val_pos(p);
        lemma_dec_val_nonneg(s);
        assert(dec_val(s) == dec_val(p) * 10 + crate::digits::digit_val(s.last()));
        assert(dec_val(p) * 10 >= 10) by (nonlinear_arith)
            requires
                dec_val(p) >= 1,
        ;
    }
}

/// A canonical digit group: the characters of `s` between `from` and `to`
/// are digits without a leading zero, reading back as exactly themselves.
fn parse_canon_group(s: &str, from: usize, to: usize, bound: u64) -> (r: Option<u64>)
    requires
        from <= to <= s@.len(),
        bound <= 0xFFFF,
    ensures
        match r {
            Some(v) => {
                &&& v <= bound
                &&& s@.subrange(from as int, to as int) == dec_str(v as int)
            },
            None => forall|v: int|
                0 <= v <= bound ==> s@.subrange(from as int, to as int) != dec_str(v),
        },
{
    let ghost span = s@.subrange(from as int, to as int);
    if from == to {
        proof {
            assert forall|v: int| 0 <= v <= bound implies span != dec_str(v) by {
                lemma_dec_round_trip(v);
            }
        }
        return None;
    }
    if to - from >= 2 {
        let c0 = s.get_char(from);
        proof {
            assert(span[0] == s@[from as int]);
        }
        if c0 == '0' {
            proof {
                assert forall|v: int| 0 <= v <= bound implies span != dec_str(v) by {
                    lemma_dec_round_trip(v);
                    if span == dec_str(v) {
                        lemma_dec_canon_front(v);
                    }
                }
            }
            return None;
        }
    }
    match parse_u64_range(s, from, to) {
        Some(v) => {
            if v <= bound {
                proof {
                    lemma_dec_canon(span);
                }
                Some(v)
            } else {
                proof {
                    assert forall|w: int| 0 <= w <= bound implies span != dec_str(w) by {
                        lemma_dec_round_trip(w);
                    }
                }
                None
            }
        },
        None => {
            proof {
                assert forall|w: int| 0 <= w <= bound implies span != dec_str(w) by {
                    lemma_dec_round_trip(w);
                }
            }
            None
        },
    }
}

/// A multi-digit canonical rendering never starts with `0`.
proof fn lemma_dec_canon_front(v: int)
    requires
        v >= 0,
    ensures
        dec_str(v).len() >= 2 ==> dec_str(v)[0] != '0',
    decreases v,
{
    if v >= 10 {
        lemma_dec_canon_front(v / 10);
        lemma_dec_round_trip(v / 10);
        assert(dec_str(v) == dec_str(v / 10).push(crate::digits::digit_char(v % 10)));
        assert(dec_str(v)[0] == dec_str(v / 10)[0]);
        if v / 10 < 10 {
            assert(dec_str(v / 10) == seq![crate::digits::digit_char(v / 10)]);
            assert(v / 10 >= 1);
            assert(crate::digits::digit_char(v / 10) != '0');
        } else {
            lemma_dec_round_trip(v / 10 / 10);
            assert(dec_str(v / 10) == dec_str(v / 10 / 10).push(
                crate::digits::digit_char(v / 10 % 10),
            ));
            assert(dec_str(v / 10).len() >= 2);
        }
    }
}

/// The positions of the separators inside a rendered address.
pub open spec fn ap1(ad: ServerAddress) -> int {
    dec_str(ad.a as int).len() as int
}

pub open spec fn ap2(ad: ServerAddress) -> int {
    ap1(ad) + 1 + dec_str(ad.b as int).len()
}

pub open spec fn ap3(ad: ServerAddress) -> int {
    ap2(ad) + 1 + dec_str(ad.c as int).len()
}

pub open spec fn ap4(ad: ServerAddress) -> int {
    ap3(ad) + 1 + dec_str(ad.d as int).len()
}

/// The shape of a rendered address: dots at the three octet boundaries, a
/// colon before the port, digits everywhere else, and each group cut out
/// of the text is that field's canonical rendering.
proof fn lemma_render_chars(ad: ServerAddress)
    ensures
        render_address(ad).len() == ap4(ad) + 1 + dec_str(ad.port as int).len(),
        0 <= ap1(ad) < ap2(ad) < ap3(ad) < ap4(ad) < render_address(ad).len(),
        render_address(ad)[ap1(ad)] == '.',
        render_address(ad)[ap2(ad)] == '.',
        render_address(ad)[ap3(ad)] == '.',
        render_address(ad)[ap4(ad)] == ':',
        forall|i: int|
            0 <= i < render_address(ad).len() && i != ap1(ad) && i != ap2(ad) && i != ap3(ad) && i
                != ap4(ad) ==> crate::digits::is_digit(#[trigger] render_address(ad)[i]),
        render_address(ad).subrange(0, ap1(ad)) == dec_str(ad.a as int),
        render_address(ad).subrange(ap1(ad) + 1, ap2(ad)) == dec_str(ad.b as int),
        render_address(ad).subrange(ap2(ad) + 1, ap3(ad)) == dec_str(ad.c as int),
        render_address(ad).subrange(ap3(ad) + 1, ap4(ad)) == dec_str(ad.d as int),
        render_address(ad).subrange(ap4(ad) + 1, render_address(ad).len() as int) == dec_str(
            ad.port as int,
        ),
{
    let sa = dec_str(ad.a as int);
    let sb = dec_str(ad.b as int);
    let sc = dec_str(ad.c as int);
    let sd = dec_str(ad.d as int);
    let sp = dec_str(ad.port as int);
    lemma_dec_round_trip(ad.a as int);
    lemma_dec_round_trip(ad.b as int);
    lemma_dec_round_trip(ad.c as int);
    lemma_dec_round_trip(ad.d as int);
    lemma_dec_round_trip(ad.port as int);
    let r = render_address(ad);
    assert(r == sa + seq!['.'] + sb + seq!['.'] + sc + seq!['.'] + sd + seq![':'] + sp);
    assert(r.len() == sa.len() + 1 + sb.len() + 1 + sc.len() + 1 + sd.len() + 1 + sp.len());
    assert(r.subrange(0, ap1(ad)) =~= sa);
    assert(r.subrange(ap1(ad) + 1, ap2(ad)) =~= sb);
    assert(r.subrange(ap2(ad) + 1, ap3(ad)) =~= sc);
    assert(r.subrange(ap3(ad) + 1, ap4(ad)) =~= sd);
    assert(r.subrange(ap4(ad) + 1, r.len() as int) =~= sp);
    assert forall|i: int|
        0 <= i < r.len() && i != ap1(ad) && i != ap2(ad) && i != ap3(ad) && i != ap4(
            ad,
        ) implies crate::digits::is_digit(#[trigger] r[i]) by {
        if i < ap1(ad) {
            assert(r[i] == sa[i]);
        } else if i < ap2(ad) {
            assert(r[i] == sb[i - ap1(ad) - 1]);
        } else if i < ap3(ad) {
            assert(r[i] == sc[i - ap2(ad) - 1]);
        } else if i < ap4(ad) {
            assert(r[i] == sd[i - ap3(ad) - 1]);
        } else {
            assert(r[i] == sp[i - ap4(ad) - 1]);
        }
    }
}

/// A digit character is neither a dot nor a colon.
proof fn lemma_digit_not_sep(c: char)
    ensures
        crate::digits::is_digit(c) ==> c != '.' && c != ':',
{
}

/// Reads a numeric `a.b.c.d:port` address. Accepts exactly the canonical
/// renderings: four decimal octets and a decimal port, no leading zeros.
#[verifier::rlimit(100)]
#[verifier::spinoff_prover]
pub fn parse_address(s: &str) -> (r: Option<ServerAddress>)
    ensures
        match r {
            Some(ad) => s@ == render_address(ad),
            None => forall|ad: ServerAddress| s@ != #[trigger] render_address(ad),
        },
{
    let n = s.unicode_len();
    let mut dots: Vec<usize> = Vec::new();
    let mut colon: Option<usize> = None;
    let mut i: usize = 0;
    while i < n
        invariant
            n == s@.len(),
            i <= n,
            dots@.len() <= 3,
            forall|k: int| 0 <= k < dots@.len() ==> #[trigger] dots@[k] < i,
            forall|k: int| 0 <= k < dots@.len() ==> s@[dots@[k] as int] == '.',
            forall|k: int, l: int| 0 <= k < l < dots@.len() ==> dots@[k] < dots@[l],
            match colon {
                Some(c) => c < i && s@[c as int] == ':' && dots@.len() == 3 && (forall|j: int|
                    0 <= j < dots@.len() ==> #[trigger] dots@[j] < c),
                None => forall|j: int| 0 <= j < i ==> s@[j] != ':',
            },
            forall|j: int|
                0 <= j < i && s@[j] == '.' ==> exists|k: int|
                    0 <= k < dots@.len() && dots@[k] == j,
        decreases n - i,
    {
        let c = s.get_char(i);
        if c == '.' {
            if colon.is_some() || dots.len() >= 3 {
                proof {
                    assert forall|ad: ServerAddress| s@ != #[trigger] render_address(ad) by {
                        if s@ == render_address(ad) {
                            lemma_render_chars(ad);
                            assert(i == ap1(ad) || i == ap2(ad) || i == ap3(ad));
                            if colon is Some {
                                let cj = colon->Some_0 as int;
                                assert(s@[cj] == ':');
                                assert(cj == ap4(ad));
                                assert(cj < i);
                            } else {
                                assert(dots@.len() == 3);
                                assert forall|k: int| 0 <= k < 3 implies dots@[k] as int == ap1(
                                    ad,
                                ) || dots@[k] as int == ap2(ad) || dots@[k] as int == ap3(
                                    ad,
                                ) by {
                                    assert(s@[dots@[k] as int] == '.');
                                }
                                assert(dots@[0] < dots@[1] < dots@[2]);
                                assert(dots@[0] as int == ap1(ad));
                                assert(dots@[2] as int == ap3(ad));
                                assert((dots@[0] as int) < i);
                            }
                            assert(false);
                        }
                    }
                }
                return None;
            }
            let ghost before = dots@;
            dots.push(i);
            proof {
                assert forall|j: int|
                    0 <= j < i + 1 && s@[j] == '.' implies exists|k: int|
                    0 <= k < dots@.len() && dots@[k] == j by {
                    if j < i {
                        let k = choose|k: int| 0 <= k < before.len() && before[k] == j;
                        assert(dots@[k] == j);
                    } else {
                        assert(dots@[dots@.len() - 1] == i);
                    }
                }
            }
        } else if c == ':' {
            if colon.is_some() || dots.len() != 3 {
                proof {
                    assert forall|ad: ServerAddress| s@ != #[trigger] render_address(ad) by {
                        if s@ == render_address(ad) {
                            lemma_render_chars(ad);
                            assert(i == ap4(ad));
                            if colon is Some {
                                let cj = colon->Some_0 as int;
                                assert(s@[cj] == ':');
                                assert(cj == ap4(ad));
                                assert(cj < i);
                            } else {
                                assert(s@[ap1(ad)] == '.');
                                assert(s@[ap2(ad)] == '.');
                                assert(s@[ap3(ad)] == '.');
                                let k1 = choose|k: int|
                                    0 <= k < dots@.len() && dots@[k] as int == ap1(ad);
                                let k2 = choose|k: int|
                                    0 <= k < dots@.len() && dots@[k] as int == ap2(ad);
                                let k3 = choose|k: int|
                                    0 <= k < dots@.len() && dots@[k] as int == ap3(ad);
                                assert(k1 != k2 && k2 != k3 && k1 != k3);
                                assert(dots@.len() >= 3);
                            }
                            assert(false);
                        }
                    }
                }
                return None;
            }
            colon = Some(i);
        }
        i = i + 1;
    }
    let col = match colon {
        Some(c) => c,
        None => {
            proof {
                assert forall|ad: ServerAddress| s@ != #[trigger] render_address(ad) by {
                    if s@ == render_address(ad) {
                        lemma_render_chars(ad);
                        assert(s@[ap4(ad)] == ':');
                    }
                }
            }
            return None;
        },
    };
    let d0 = dots[0];
    let d1 = dots[1];
    let d2 = dots[2];
    proof {
        assert forall|ad: ServerAddress|
            s@ == #[trigger] render_address(ad) implies d0 as int == ap1(ad) && d1 as int == ap2(
            ad,
        ) && d2 as int == ap3(ad) && col as int == ap4(ad) by {
            lemma_render_chars(ad);
            assert(col as int == ap4(ad));
            assert forall|k: int| 0 <= k < 3 implies dots@[k] as int == ap1(ad) || dots@[k] as int
                == ap2(ad) || dots@[k] as int == ap3(ad) by {
                assert(s@[dots@[k] as int] == '.');
            }
            assert(s@[ap1(ad)] == '.');
            assert(s@[ap2(ad)] == '.');
            assert(s@[ap3(ad)] == '.');
            let k1 = choose|k: int| 0 <= k < dots@.len() && dots@[k] as int == ap1(ad);
            let k2 = choose|k: int| 0 <= k < dots@.len() && dots@[k] as int == ap2(ad);
            let k3 = choose|k: int| 0 <= k < dots@.len() && dots@[k] as int == ap3(ad);
            assert(k1 != k2 && k2 != k3 && k1 != k3);
            assert(dots@[0] < dots@[1] < dots@[2]);
        }
    }
    let a = match parse_canon_group(s, 0, d0, 255) {
        Some(v) => v,
        None => {
            proof {
                assert forall|ad: ServerAddress| s@ != #[trigger] render_address(ad) by {
                    if s@ == render_address(ad) {
                        lemma_render_chars(ad);
                        assert(s@.subrange(0, d0 as int) == dec_str(ad.a as int));
                    }
                }
            }
            return None;
        },
    };
    let b = match parse_canon_group(s, d0 + 1, d1, 255) {
        Some(v) => v,
        None => {
            proof {
                assert forall|ad: ServerAddress| s@ != #[trigger] render_address(ad) by {
                    if s@ == render_address(ad) {
                        lemma_render_chars(ad);
                        assert(s@.subrange(d0 as int + 1, d1 as int) == dec_str(ad.b as int));
                    }
                }
            }
            return None;
        },
    };
    let c = match parse_canon_group(s, d1 + 1, d2, 255) {
        Some(v) => v,
        None => {
            proof {
                assert forall|ad: ServerAddress| s@ != #[trigger] render_address(ad) by {
                    if s@ == render_address(ad) {
                        lemma_render_chars(ad);
                        assert(s@.subrange(d1 as int + 1, d2 as int) == dec_str(ad.c as int));
                    }
                }
            }
            return None;
        },
    };
    let d = match parse_canon_group(s, d2 + 1, col, 255) {
        Some(v) => v,
        None => {
            proof {
                assert forall|ad: ServerAddress| s@ != #[trigger] render_address(ad) by {
                    if s@ == render_address(ad) {
                        lemma_render_chars(ad);
                        assert(s@.subrange(d2 as int + 1, col as int) == dec_str(ad.d as int));
                    }
                }
            }
            return None;
        },
    };
    let port = match parse_canon_group(s, col + 1, n, 65535) {
        Some(v) => v,
        None => {
            proof {
                assert forall|ad: ServerAddress| s@ != #[trigger] render_address(ad) by {
                    if s@ == render_address(ad) {
                        lemma_render_chars(ad);
                        assert(s@.subrange(col as int + 1, n as int) == dec_str(ad.port as int));
                    }
                }
            }
            return None;
        },
    };
    let ad = ServerAddress {
        a: a as u8,
        b: b as u8,
        c: c as u8,
        d: d as u8,
        port: port as u16,
    };
    proof {
        assert(s@ =~= render_address(ad));
    }
    Some(ad)
}


/// Lexicographic order on character sequences, by code point.
pub open spec fn str_lt(a: Seq<char>, b: Seq<char>) -> bool
    decreases a.len(),
{
    if b.len() == 0 {
        false
    } else if a.len() == 0 {
        true
    } else if a[0] != b[0] {
        (a[0] as u32) < (b[0] as u32)
    } else {
        str_lt(a.skip(1), b.skip(1))
    }
}

/// The order is total: two distinct names compare one way or the other.
pub proof fn lemma_str_lt_total(a: Seq<char>, b: Seq<char>)
    requires
        !str_lt(a, b),
        !str_lt(b, a),
    ensures
        a == b,
    decreases a.len(),
{
    if b.len() == 0 {
        assert(a.len() == 0);
        assert(a =~= b);
    } else if a.len() == 0 {
    } else {
        if a[0] != b[0] {
            assert((a[0] as u32) == (b[0] as u32));
            vstd::utf8::char_u32_cast(a[0], a[0] as u32);
            vstd::utf8::char_u32_cast(b[0], b[0] as u32);
        }
        assert(a[0] == b[0]);
        assert(str_lt(a, b) == str_lt(a.skip(1), b.skip(1)));
        assert(str_lt(b, a) == str_lt(b.skip(1), a.skip(1)));
        lemma_str_lt_total(a.skip(1), b.skip(1));
        assert(a.skip(1) == b.skip(1));
        assert(a.skip(1).len() == b.skip(1).len());
        assert(a.len() == b.len());
        assert forall|i: int| 0 <= i < a.len() implies a[i] == b[i] by {
            if i > 0 {
                assert(a.skip(1)[i - 1] == a[i]);
                assert(b.skip(1)[i - 1] == b[i]);
            }
        }
        assert(a =~= b);
    }
}

/// The order is transitive.
pub proof fn lemma_str_lt_trans(a: Seq<char>, b: Seq<char>, c: Seq<char>)
    requires
        str_lt(a, b),
        str_lt(b, c),
    ensures
        str_lt(a, c),
    decreases a.len(),
{
    if a.len() == 0 {
        assert(b.len() > 0);
        assert(c.len() > 0);
    } else {
        assert(b.len() > 0 && c.len() > 0);
        if a[0] == b[0] && b[0] == c[0] {
            lemma_str_lt_trans(a.skip(1), b.skip(1), c.skip(1));
        }
    }
}

/// True when the characters of `a` and `b` are the same.
pub fn str_eq(a: &str, b: &str) -> (r: bool)
    ensures
        r == (a@ == b@),
{
    let na = a.unicode_len();
    let nb = b.unicode_len();
    if na != nb {
        return false;
    }
    let mut i: usize = 0;
    while i < na
        invariant
            na == a@.len(),
            nb == b@.len(),
            na == nb,
            i <= na,
            forall|k: int| 0 <= k < i ==> a@[k] == b@[k],
        decreases na - i,
    {
        if a.get_char(i) != b.get_char(i) {
            return false;
        }
        i = i + 1;
    }
    proof {
        assert(a@ =~= b@);
    }
    true
}

/// True when `a` sorts strictly before `b`.
pub fn str_less(a: &str, b: &str) -> (r: bool)
    ensures
        r == str_lt(a@, b@),
{
    let na = a.unicode_len();
    let nb = b.unicode_len();
    let mut i: usize = 0;
    proof {
        assert(a@.skip(0) =~= a@);
        assert(b@.skip(0) =~= b@);
    }
    while i < na && i < nb
        invariant
            na == a@.len(),
            nb == b@.len(),
            i <= na,
            i <= nb,
            str_lt(a@, b@) == str_lt(a@.skip(i as int), b@.skip(i as int)),
        decreases na - i,
    {
        let ca = a.get_char(i);
        let cb = b.get_char(i);
        proof {
            assert(a@.skip(i as int)[0] == a@[i as int]);
            assert(b@.skip(i as int)[0] == b@[i as int]);
        }
        if ca != cb {
            return (ca as u32) < (cb as u32);
        }
        proof {
            assert(a@.skip(i as int).skip(1) =~= a@.skip(i as int + 1));
            assert(b@.skip(i as int).skip(1) =~= b@.skip(i as int + 1));
        }
        i = i + 1;
    }
    proof {
        if i >= na {
            assert(a@.skip(i as int) =~= Seq::<char>::empty());
        }
        if i >= nb {
            assert(b@.skip(i as int) =~= Seq::<char>::empty());
        }
    }
    i < nb
}

/// The first status entry for a name, if any.
pub open spec fn status_lookup(s: Seq<(String, ServerStatus)>, name: Seq<char>) -> Option<
    ServerStatus,
>
    decreases s.len(),
{
    if s.len() == 0 {
        None
    } else if s[0].0@ == name {
        Some(s[0].1)
    } else {
        status_lookup(s.skip(1), name)
    }
}

/// The snapshot of liveness data for all polled servers, keyed by name and
/// replaced whole after every polling cycle. A name with no entry reads as
/// offline with zero players.
pub struct StatusBoard {
    entries: Vec<(String, ServerStatus)>,
}

impl StatusBoard {
    pub closed spec fn entries(self) -> Seq<(String, ServerStatus)> {
        self.entries@
    }

    /// The reading for a name: its entry, or the offline default.
    pub open spec fn status_of(self, name: Seq<char>) -> ServerStatus {
        match status_lookup(self.entries(), name) {
            Some(st) => st,
            None => ServerStatus { online: false, players_online: 0, players_max: 0 },
        }
    }

    pub fn new() -> (r: Self)
        ensures
            r.entries().len() == 0,
    {
        StatusBoard { entries: Vec::new() }
    }

    /// The current reading for a server name.
    pub fn get(&self, name: &str) -> (r: ServerStatus)
        ensures
            r == self.status_of(name@),
    {
        let mut i: usize = 0;
        proof {
            assert(self.entries().skip(0) =~= self.entries());
        }
        while i < self.entries.len()
            invariant
                i <= self.entries().len(),
                status_lookup(self.entries(), name@) == status_lookup(
                    self.entries().skip(i as int),
                    name@,
                ),
            decreases self.entries().len() - i,
        {
            proof {
                assert(self.entries().skip(i as int)[0] == self.entries()[i as int]);
            }
            if str_eq(self.entries[i].0.as_str(), name) {
                return self.entries[i].1;
            }
            proof {
                assert(self.entries().skip(i as int).skip(1) =~= self.entries().skip(
                    i as int + 1,
                ));
            }
            i = i + 1;
        }
        proof {
            assert(self.entries().skip(i as int) =~= Seq::<(String, ServerStatus)>::empty());
        }
        ServerStatus { online: false, players_online: 0, players_max: 0 }
    }

    /// Replaces the whole snapshot in one step: readings for names absent
    /// from the new entries fall back to the offline default, never to
    /// stale data.
    pub fn replace(&mut self, entries: Vec<(String, ServerStatus)>)
        ensures
            final(self).entries() == entries@,
    {
        self.entries = entries;
    }
}

/// The first directory entry for a name, if any.
pub open spec fn dir_lookup(s: Seq<(String, ServerAddress)>, name: Seq<char>) -> Option<
    ServerAddress,
>
    decreases s.len(),
{
    if s.len() == 0 {
        None
    } else if s[0].0@ == name {
        Some(s[0].1)
    } else {
        dir_lookup(s.skip(1), name)
    }
}

/// The registered remote servers, kept sorted by name.
pub struct ServerDirectory {
    entries: Vec<(String, ServerAddress)>,
}

impl ServerDirectory {
    pub closed spec fn entries(self) -> Seq<(String, ServerAddress)> {
        self.entries@
    }

    pub open spec fn wf(self) -> bool {
        forall|i: int, j: int|
            0 <= i < j < self.entries().len() ==> str_lt(
                (#[trigger] self.entries()[i]).0@,
                (#[trigger] self.entries()[j]).0@,
            )
    }

    pub open spec fn address_of(self, name: Seq<char>) -> Option<ServerAddress> {
        dir_lookup(self.entries(), name)
    }

    pub fn new() -> (r: Self)
        ensures
            r.wf(),
            r.entries().len() == 0,
    {
        ServerDirectory { entries: Vec::new() }
    }

    /// The position of the first entry whose name does not sort before
    /// `name`.
    fn lower_bound(&self, name: &str) -> (i: usize)
        requires
            self.wf(),
        ensures
            i <= self.entries().len(),
            forall|k: int| 0 <= k < i ==> str_lt((#[trigger] self.entries()[k]).0@, name@),
            i < self.entries().len() ==> !str_lt(self.entries()[i as int].0@, name@),
    {
        let mut i: usize = 0;
        while i < self.entries.len()
            invariant
                i <= self.entries().len(),
                forall|k: int| 0 <= k < i ==> str_lt((#[trigger] self.entries()[k]).0@, name@),
            decreases self.entries().len() - i,
        {
            if !str_less(self.entries[i].0.as_str(), name) {
                return i;
            }
            i = i + 1;
        }
        i
    }

    /// Registers a server, replacing the address of an existing name.
    pub fn add_server(&mut self, name: String, addr: ServerAddress)
        requires
            old(self).wf(),
        ensures
            final(self).wf(),
            final(self).address_of(name@) == Some(addr),
            forall|q: Seq<char>|
                q != name@ ==> #[trigger] final(self).address_of(q) == old(self).address_of(q),
    {
        let i = self.lower_bound(name.as_str());
        let ghost pre = self.entries@;
        let ghost nm = name@;
        if i < self.entries.len() && str_eq(self.entries[i].0.as_str(), name.as_str()) {
            self.entries.set(i, (name, addr));
            proof {
                let cur = self.entries@;
                assert(cur =~= pre.take(i as int) + seq![cur[i as int]] + pre.skip(i as int + 1));
                assert(pre =~= pre.take(i as int) + seq![pre[i as int]] + pre.skip(i as int + 1));
                assert forall|k: int| 0 <= k < i implies (#[trigger] pre.take(i as int)[k]).0@
                    != nm by {
                    assert(pre.take(i as int)[k] == pre[k]);
                    assert(str_lt(pre[k].0@, nm));
                    lemma_str_lt_irrefl(nm);
                    if pre[k].0@ == nm {
                        assert(str_lt(nm, nm));
                    }
                }
                lemma_dir_absent(pre.take(i as int), nm);
                assert forall|q: Seq<char>| true implies #[trigger] dir_lookup(cur, q)
                    == (if q == nm {
                    Some(addr)
                } else {
                    dir_lookup(pre, q)
                }) by {
                    assert(cur =~= pre.take(i as int) + (seq![cur[i as int]] + pre.skip(
                        i as int + 1,
                    )));
                    assert(pre =~= pre.take(i as int) + (seq![pre[i as int]] + pre.skip(
                        i as int + 1,
                    )));
                    lemma_dir_lookup_add(
                        pre.take(i as int),
                        seq![cur[i as int]] + pre.skip(i as int + 1),
                        q,
                    );
                    lemma_dir_lookup_add(
                        pre.take(i as int),
                        seq![pre[i as int]] + pre.skip(i as int + 1),
                        q,
                    );
                    assert((seq![cur[i as int]] + pre.skip(i as int + 1)).skip(1) =~= pre.skip(
                        i as int + 1,
                    ));
                    assert((seq![pre[i as int]] + pre.skip(i as int + 1)).skip(1) =~= pre.skip(
                        i as int + 1,
                    ));
                    assert((seq![cur[i as int]] + pre.skip(i as int + 1))[0] == cur[i as int]);
                    assert((seq![pre[i as int]] + pre.skip(i as int + 1))[0] == pre[i as int]);
                }
                assert forall|a: int, b: int|
                    0 <= a < b < cur.len() implies str_lt(
                    (#[trigger] cur[a]).0@,
                    (#[trigger] cur[b]).0@,
                ) by {
                    assert(cur[a].0@ == pre[a].0@);
                    assert(cur[b].0@ == pre[b].0@);
                    assert(str_lt(pre[a].0@, pre[b].0@));
                }
            }
        } else {
            proof {
                if i < pre.len() {
                    lemma_str_lt_total_neq(pre[i as int].0@, name@);
                }
            }
            self.entries.insert(i, (name, addr));
            proof {
                let cur = self.entries@;
                assert(cur =~= pre.take(i as int) + seq![cur[i as int]] + pre.skip(i as int));
                assert(pre =~= pre.take(i as int) + pre.skip(i as int));
                assert forall|k: int| 0 <= k < i implies (#[trigger] pre.take(i as int)[k]).0@
                    != nm by {
                    assert(pre.take(i as int)[k] == pre[k]);
                    assert(str_lt(pre[k].0@, nm));
                    lemma_str_lt_irrefl(nm);
                    if pre[k].0@ == nm {
                        assert(str_lt(nm, nm));
                    }
                }
                lemma_dir_absent(pre.take(i as int), nm);
                assert forall|q: Seq<char>| true implies #[trigger] dir_lookup(cur, q)
                    == (if q == nm {
                    Some(addr)
                } else {
                    dir_lookup(pre, q)
                }) by {
                    assert(cur =~= pre.take(i as int) + (seq![cur[i as int]] + pre.skip(
                        i as int,
                    )));
                    assert(pre =~= pre.take(i as int) + pre.skip(i as int));
                    lemma_dir_lookup_add(
                        pre.take(i as int),
                        seq![cur[i as int]] + pre.skip(i as int),
                        q,
                    );
                    lemma_dir_lookup_add(pre.take(i as int), pre.skip(i as int), q);
                    assert((seq![cur[i as int]] + pre.skip(i as int)).skip(1) =~= pre.skip(
                        i as int,
                    ));
                    assert((seq![cur[i as int]] + pre.skip(i as int))[0] == cur[i as int]);
                }
                assert forall|a: int, b: int|
                    0 <= a < b < self.entries@.len() implies str_lt(
                    (#[trigger] self.entries@[a]).0@,
                    (#[trigger] self.entries@[b]).0@,
                ) by {
                    if a < i && b == i {
                    } else if a == i && b > i {
                        assert(self.entries@[b] == pre[b - 1]);
                        if b - 1 > i {
                            assert(str_lt(pre[i as int].0@, pre[b - 1].0@));
                            lemma_str_lt_trans(
                                self.entries@[i as int].0@,
                                pre[i as int].0@,
                                pre[b - 1].0@,
                            );
                        }
                    } else if a < i && b > i {
                        assert(self.entries@[a] == pre[a]);
                        assert(self.entries@[b] == pre[b - 1]);
                    } else if a > i && b > i {
                        assert(self.entries@[a] == pre[a - 1]);
                        assert(self.entries@[b] == pre[b - 1]);
                    }
                }
            }
        }
    }

    /// Unregisters a server. Returns whether the name was registered.
    pub fn remove_server(&mut self, name: &str) -> (removed: bool)
        requires
            old(self).wf(),
        ensures
            final(self).wf(),
            removed == (old(self).address_of(name@) is Some),
            final(self).address_of(name@) is None,
            forall|q: Seq<char>|
                q != name@ ==> #[trigger] final(self).address_of(q) == old(self).address_of(q),
    {
        let ghost pre = self.entries@;
        let mut i: usize = 0;
        while i < self.entries.len()
            invariant
                *self == *old(self),
                pre == self.entries@,
                self.wf(),
                i <= self.entries().len(),
                forall|k: int| 0 <= k < i ==> (#[trigger] self.entries()[k]).0@ != name@,
            decreases self.entries().len() - i,
        {
            if str_eq(self.entries[i].0.as_str(), name) {
                self.entries.remove(i);
                proof {
                    let cur = self.entries@;
                    assert(cur =~= pre.take(i as int) + pre.skip(i as int + 1));
                    assert(pre =~= pre.take(i as int) + seq![pre[i as int]] + pre.skip(
                        i as int + 1,
                    ));
                    assert forall|k: int| 0 <= k < i implies (#[trigger] pre.take(
                        i as int,
                    )[k]).0@ != name@ by {
                        assert(pre.take(i as int)[k] == pre[k]);
                    }
                    lemma_dir_absent(pre.take(i as int), name@);
                    assert forall|k: int| 0 <= k < pre.skip(i as int + 1).len() implies (
                    #[trigger] pre.skip(i as int + 1)[k]).0@ != name@ by {
                        assert(pre.skip(i as int + 1)[k] == pre[i + 1 + k]);
                        assert(str_lt(pre[i as int].0@, pre[i + 1 + k].0@));
                        lemma_str_lt_irrefl(name@);
                        if pre[i + 1 + k].0@ == name@ {
                            assert(str_lt(name@, name@));
                        }
                    }
                    lemma_dir_absent(pre.skip(i as int + 1), name@);
                    assert forall|q: Seq<char>| true implies #[trigger] dir_lookup(cur, q)
                        == (if q == name@ {
                        None
                    } else {
                        dir_lookup(pre, q)
                    }) by {
                        assert(cur =~= pre.take(i as int) + pre.skip(i as int + 1));
                        assert(pre =~= pre.take(i as int) + (seq![pre[i as int]] + pre.skip(
                            i as int + 1,
                        )));
                        lemma_dir_lookup_add(pre.take(i as int), pre.skip(i as int + 1), q);
                        lemma_dir_lookup_add(
                            pre.take(i as int),
                            seq![pre[i as int]] + pre.skip(i as int + 1),
                            q,
                        );
                        assert((seq![pre[i as int]] + pre.skip(i as int + 1)).skip(1) =~= pre.skip(
                            i as int + 1,
                        ));
                        assert((seq![pre[i as int]] + pre.skip(i as int + 1))[0] == pre[i as int]);
                    }
                    assert forall|a: int, b: int|
                        0 <= a < b < cur.len() implies str_lt(
                        (#[trigger] cur[a]).0@,
                        (#[trigger] cur[b]).0@,
                    ) by {
                        assert(cur[a] == (if a < i {
                            pre[a]
                        } else {
                            pre[a + 1]
                        }));
                        assert(cur[b] == (if b < i {
                            pre[b]
                        } else {
                            pre[b + 1]
                        }));
                    }
                    assert(dir_lookup(pre, name@) == Some(pre[i as int].1)) by {
                        assert(pre =~= pre.take(i as int) + (seq![pre[i as int]] + pre.skip(
                            i as int + 1,
                        )));
                        lemma_dir_lookup_add(
                            pre.take(i as int),
                            seq![pre[i as int]] + pre.skip(i as int + 1),
                            name@,
                        );
                        assert((seq![pre[i as int]] + pre.skip(i as int + 1))[0] == pre[i as int]);
                    }
                }
                return true;
            }
            i = i + 1;
        }
        proof {
            lemma_dir_absent(self.entries@, name@);
        }
        false
    }

    /// Whether a name is registered.
    pub fn has_server(&self, name: &str) -> (r: bool)
        ensures
            r == (self.address_of(name@) is Some),
    {
        let mut i: usize = 0;
        proof {
            assert(self.entries().skip(0) =~= self.entries());
        }
        while i < self.entries.len()
            invariant
                i <= self.entries().len(),
                dir_lookup(self.entries(), name@) == dir_lookup(
                    self.entries().skip(i as int),
                    name@,
                ),
            decreases self.entries().len() - i,
        {
            proof {
                assert(self.entries().skip(i as int)[0] == self.entries()[i as int]);
            }
            if str_eq(self.entries[i].0.as_str(), name) {
                return true;
            }
            proof {
                assert(self.entries().skip(i as int).skip(1) =~= self.entries().skip(
                    i as int + 1,
                ));
            }
            i = i + 1;
        }
        proof {
            assert(self.entries().skip(i as int) =~= Seq::<(String, ServerAddress)>::empty());
        }
        false
    }

    /// Every registered server with its address and current status
    /// reading, in name order.
    pub fn list_servers(&self, board: &StatusBoard) -> (r: Vec<(String, ServerAddress, ServerStatus)>)
        requires
            self.wf(),
        ensures
            r@.len() == self.entries().len(),
            forall|k: int|
                0 <= k < r@.len() ==> {
                    let e = #[trigger] r@[k];
                    &&& e.0@ == self.entries()[k].0@
                    &&& e.1 == self.entries()[k].1
                    &&& e.2 == board.status_of(self.entries()[k].0@)
                },
    {
        let mut out: Vec<(String, ServerAddress, ServerStatus)> = Vec::new();
        let mut i: usize = 0;
        while i < self.entries.len()
            invariant
                i <= self.entries().len(),
                out@.len() == i,
                forall|k: int|
                    0 <= k < i ==> {
                        let e = #[trigger] out@[k];
                        &&& e.0@ == self.entries()[k].0@
                        &&& e.1 == self.entries()[k].1
                        &&& e.2 == board.status_of(self.entries()[k].0@)
                    },
            decreases self.entries().len() - i,
        {
            let name = self.entries[i].0.clone();
            let st = board.get(name.as_str());
            out.push((name, self.entries[i].1, st));
            i = i + 1;
        }
        out
    }
}

/// Two distinct names: one sorts before the other.
proof fn lemma_str_lt_total_neq(a: Seq<char>, b: Seq<char>)
    requires
        !str_lt(a, b),
        a != b,
    ensures
        str_lt(b, a),
{
    if !str_lt(b, a) {
        lemma_str_lt_total(a, b);
    }
}

/// No name sorts before itself.
proof fn lemma_str_lt_irrefl(a: Seq<char>)
    ensures
        !str_lt(a, a),
    decreases a.len(),
{
    if a.len() > 0 {
        lemma_str_lt_irrefl(a.skip(1));
    }
}

/// Lookup over concatenated entry lists: the left part wins.
proof fn lemma_dir_lookup_add(
    a: Seq<(String, ServerAddress)>,
    b: Seq<(String, ServerAddress)>,
    q: Seq<char>,
)
    ensures
        dir_lookup(a + b, q) == (match dir_lookup(a, q) {
            Some(v) => Some(v),
            None => dir_lookup(b, q),
        }),
    decreases a.len(),
{
    if a.len() == 0 {
        assert(a + b =~= b);
    } else {
        lemma_dir_lookup_add(a.skip(1), b, q);
        assert((a + b).skip(1) =~= a.skip(1) + b);
        assert((a + b)[0] == a[0]);
    }
}

proof fn lemma_dir_absent(s: Seq<(String, ServerAddress)>, name: Seq<char>)
    requires
        forall|k: int| 0 <= k < s.len() ==> (#[trigger] s[k]).0@ != name,
    ensures
        dir_lookup(s, name) is None,
    decreases s.len(),
{
    if s.len() > 0 {
        assert(s[0].0@ != name);
        assert forall|k: int| 0 <= k < s.skip(1).len() implies (#[trigger] s.skip(1)[k]).0@
            != name by {
            assert(s.skip(1)[k] == s[k + 1]);
        }
        lemma_dir_absent(s.skip(1), name);
    }
}


/// The host field of the handshake: the dotted-decimal address as bytes.
pub open spec fn host_bytes(ad: ServerAddress) -> Seq<u8> {
    dec_bytes(ad.a as int) + seq![0x2Eu8] + dec_bytes(ad.b as int) + seq![0x2Eu8] + dec_bytes(
        ad.c as int,
    ) + seq![0x2Eu8] + dec_bytes(ad.d as int)
}

/// The handshake packet body: packet tag zero, the sentinel status-intent
/// protocol version (-1), the declared host and port, and next-state 1
/// ("status").
pub open spec fn handshake_body(ad: ServerAddress) -> Seq<u8> {
    varint_bytes(0u32) + varint_i32(-1i32) + varint_bytes(host_bytes(ad).len() as u32) + host_bytes(ad)
        + seq![(ad.port / 256) as u8, (ad.port % 256) as u8] + varint_bytes(1u32)
}

/// A length-prefixed frame.
pub open spec fn frame_spec(body: Seq<u8>) -> Seq<u8> {
    varint_bytes(body.len() as u32) + body
}

/// The whole request: the framed handshake followed by the framed empty
/// status request (packet tag zero).
pub open spec fn status_request_bytes(ad: ServerAddress) -> Seq<u8> {
    frame_spec(handshake_body(ad)) + frame_spec(varint_bytes(0u32))
}

/// A nonnegative value below 100000 renders to at most five digit bytes.
proof fn lemma_dec_bytes_len5(v: int)
    requires
        0 <= v < 100000,
    ensures
        1 <= dec_bytes(v).len() <= 5,
{
    reveal_with_fuel(dec_bytes, 6);
}

/// Builds the two-frame status request for an address.
pub fn build_status_request(ad: &ServerAddress) -> (r: Vec<u8>)
    ensures
        r@ == status_request_bytes(*ad),
{
    proof {
        lemma_dec_bytes_len5(ad.a as int);
        lemma_dec_bytes_len5(ad.b as int);
        lemma_dec_bytes_len5(ad.c as int);
        lemma_dec_bytes_len5(ad.d as int);
    }
    let mut host: Vec<u8> = Vec::new();
    append_u64_bytes(&mut host, ad.a as u64);
    host.push(0x2Eu8);
    append_u64_bytes(&mut host, ad.b as u64);
    host.push(0x2Eu8);
    append_u64_bytes(&mut host, ad.c as u64);
    host.push(0x2Eu8);
    append_u64_bytes(&mut host, ad.d as u64);
    proof {
        assert(host@ =~= host_bytes(*ad));
    }
    let mut body: Vec<u8> = Vec::new();
    write_varint(&mut body, 0);
    proof {
        assert(u32_of_i32(0) == 0);
        assert(varint_i32(0) == varint_bytes(0u32));
    }
    write_varint(&mut body, -1);
    let hlen = host.len();
    write_varint(&mut body, hlen as i32);
    proof {
        assert(u32_of_i32(hlen as i32) == hlen as nat);
        assert(varint_i32(hlen as i32) == varint_bytes(host_bytes(*ad).len() as u32));
    }
    let mut host2 = host;
    body.append(&mut host2);
    body.push((ad.port / 256) as u8);
    body.push((ad.port % 256) as u8);
    write_varint(&mut body, 1);
    proof {
        assert(u32_of_i32(1) == 1);
        assert(varint_i32(1) == varint_bytes(1u32));
        assert(body@ =~= handshake_body(*ad));
        crate::varint::lemma_varint_props(0);
        crate::varint::lemma_varint_props(0xFFFFFFFFu32);
    }
    let blen = body.len();
    proof {
        assert(blen < 100);
    }
    let mut out: Vec<u8> = Vec::new();
    write_varint(&mut out, blen as i32);
    proof {
        assert(u32_of_i32(blen as i32) == blen as nat);
        assert(varint_i32(blen as i32) == varint_bytes(handshake_body(*ad).len() as u32));
    }
    let mut body2 = body;
    out.append(&mut body2);
    write_varint(&mut out, 1);
    out.push(0u8);
    proof {
        assert(varint_bytes(0u32) =~= seq![0u8]);
        assert(frame_spec(varint_bytes(0u32)) =~= varint_bytes(1u32) + seq![0u8]);
        assert(varint_i32(1) == varint_bytes(1u32));
        assert(out@ =~= status_request_bytes(*ad));
    }
    out
}

/// Spec-level decode of one length- or tag-varint at a position: the value
/// modulo 2^32 and the position just past it, when a complete encoding of
/// at most five bytes stands there.
pub open spec fn vdecode(s: Seq<u8>, pos: int) -> Option<(nat, int)> {
    if exists|e: int| vterm_at(s, pos, e) {
        let e = choose|e: int| vterm_at(s, pos, e);
        Some((group_val(s.subrange(pos, e)) % 0x1_0000_0000, e))
    } else {
        None
    }
}

/// Where the JSON document stands inside a status response: after the
/// frame length, a packet tag that must be zero, and the document length,
/// which must be positive, at most a million, and within the buffer. Any
/// other shape - a mismatched tag above all - is malformed and yields no
/// document.
pub open spec fn response_json_span(s: Seq<u8>) -> Option<(int, int)> {
    match vdecode(s, 0) {
        None => None,
        Some(l) => match vdecode(s, l.1) {
            None => None,
            Some(tag) => if tag.0 != 0 {
                None
            } else {
                match vdecode(s, tag.1) {
                    None => None,
                    Some(jl) => if 1 <= jl.0 <= 1000000 && jl.1 + jl.0 <= s.len() {
                        Some((jl.1, jl.1 + jl.0))
                    } else {
                        None
                    },
                }
            },
        },
    }
}

/// Reads one varint from the buffer, agreeing with `vdecode`.
fn read_one(buf: &Vec<u8>, pos: usize) -> (r: Option<(u32, usize)>)
    requires
        pos <= buf@.len(),
    ensures
        match r {
            Some(p) => {
                &&& vdecode(buf@, pos as int) == Some((p.0 as nat, p.1 as int))
                &&& pos < p.1 <= buf@.len()
            },
            None => vdecode(buf@, pos as int) is None,
        },
{
    match read_varint_at(buf, pos) {
        Some((v, end)) => {
            proof {
                assert(vterm_at(buf@, pos as int, end as int));
                let e = choose|e: int| vterm_at(buf@, pos as int, e);
                lemma_vterm_unique(buf@, pos as int, e, end as int);
            }
            Some((v, end))
        },
        None => None,
    }
}

/// Locates the JSON document inside a status response buffer. `None` for
/// any malformed or tag-mismatched response.
pub fn parse_status_response(buf: &Vec<u8>) -> (r: Option<(usize, usize)>)
    ensures
        match r {
            Some(sp) => response_json_span(buf@) == Some((sp.0 as int, sp.1 as int)),
            None => response_json_span(buf@) is None,
        },
{
    let (_flen, p1) = match read_one(buf, 0) {
        Some(p) => p,
        None => {
            return None;
        },
    };
    let (tag, p2) = match read_one(buf, p1) {
        Some(p) => p,
        None => {
            return None;
        },
    };
    if tag != 0 {
        return None;
    }
    let (jlen, p3) = match read_one(buf, p2) {
        Some(p) => p,
        None => {
            return None;
        },
    };
    if jlen < 1 || jlen > 1000000 {
        return None;
    }
    if buf.len() - p3 < jlen as usize {
        return None;
    }
    Some((p3, p3 + jlen as usize))
}

/// The snapshot a players object with these counts reads as: online,
/// with the counts truncated to 32 bits as the protocol field width
/// demands.
pub open spec fn status_of_counts(online: u64, max: u64) -> ServerStatus {
    ServerStatus {
        online: true,
        players_online: ((online as nat) % 0x1_0000_0000) as u32,
        players_max: ((max as nat) % 0x1_0000_0000) as u32,
    }
}

/// Builds the snapshot for a well-formed players object.
pub fn status_from_counts(online: u64, max: u64) -> (st: ServerStatus)
    ensures
        st == status_of_counts(online, max),
{
    let po: u32 = (online % 0x1_0000_0000u64) as u32;
    let pm: u32 = (max % 0x1_0000_0000u64) as u32;
    ServerStatus { online: true, players_online: po, players_max: pm }
}

/// The `players.online` and `players.max` numbers of a JSON document, when
/// it parses and both fields are unsigned numbers; `None` otherwise. A
/// pure function of the document bytes alone: serde_json reads nothing
/// else.
pub uninterp spec fn slp_counts_of(doc: Seq<u8>) -> Option<(u64, u64)>;

/// Relies on `serde_json::from_slice::<Value>` (parses a document or
/// fails), `serde_json::Value::get` (the value of an object key, or
/// nothing) and `serde_json::Value::as_u64` (the value as an unsigned
/// 64-bit number, when it is one): together, the two player counts of the
/// document, whose outcome depends on the bytes alone.
#[verifier::external_body]
fn slp_counts(json: &[u8]) -> (r: Option<(u64, u64)>)
    ensures
        r == slp_counts_of(json@),
{
    let v: serde_json::Value = serde_json::from_slice(json).ok()?;
    let players = v.get("players")?;
    let online = players.get("online")?.as_u64()?;
    let max = players.get("max")?.as_u64()?;
    Some((online, max))
}

/// Reads `players.online` and `players.max` from a status-response JSON
/// document: the online snapshot of exactly those two counts when the
/// document holds them, and `None` — which the caller treats as offline —
/// when it does not.
pub fn parse_slp_json(json: &[u8]) -> (r: Option<ServerStatus>)
    ensures
        r == (match slp_counts_of(json@) {
            Some(p) => Some(status_of_counts(p.0, p.1)),
            None => None::<ServerStatus>,
        }),
{
    match slp_counts(json) {
        Some(p) => {
            let (online, max) = p;
            Some(status_from_counts(online, max))
        },
        None => None,
    }
}

/// The parsed server entries carry strictly ascending names.
pub open spec fn server_names_sorted(es: Seq<(Seq<char>, Seq<char>)>) -> bool {
    forall|i: int, j: int|
        0 <= i < j < es.len() ==> str_lt((#[trigger] es[i]).0, (#[trigger] es[j]).0)
}

impl ServerDirectory {
    /// Renders the servers snapshot: one block per registered server, in
    /// name order.
    pub fn save(&self) -> (s: String)
        ensures
            s@ == crate::persist::render_servers_file(
                crate::persist::server_texts(self.entries()),
            ),
    {
        crate::persist::render_servers(&self.entries)
    }

    /// Loads a servers snapshot into an empty directory. A malformed file
    /// (including one whose names are out of order or repeated) loads
    /// nothing. Returns how many servers were registered.
    pub fn load(&mut self, data: &str) -> (count: usize)
        requires
            old(self).wf(),
            old(self).entries().len() == 0,
        ensures
            final(self).wf(),
            match crate::persist::parse_servers_file(data@) {
                Some(es) => {
                    if server_names_sorted(es) {
                        &&& count == es.len()
                        &&& crate::persist::server_texts(final(self).entries()) == es
                    } else {
                        &&& count == 0
                        &&& final(self).entries() == old(self).entries()
                    }
                },
                None => {
                    &&& count == 0
                    &&& final(self).entries() == old(self).entries()
                },
            },
    {
        let parsed = match crate::persist::parse_servers(data) {
            Some(v) => v,
            None => {
                return 0;
            },
        };
        let ghost es = crate::persist::server_texts(parsed@);
        let mut i: usize = 0;
        while i < parsed.len()
            invariant
                *self == *old(self),
                self.wf(),
                es == crate::persist::server_texts(parsed@),
                crate::persist::parse_servers_file(data@) == Some(es),
                i <= parsed@.len(),
                forall|a: int, b: int|
                    0 <= a < b < i ==> str_lt((#[trigger] es[a]).0, (#[trigger] es[b]).0),
                forall|a: int, b: int|
                    0 <= a < b < i ==> str_lt(
                        (#[trigger] parsed@[a]).0@,
                        (#[trigger] parsed@[b]).0@,
                    ),
            decreases parsed@.len() - i,
        {
            if i > 0 && !str_less(parsed[i - 1].0.as_str(), parsed[i].0.as_str()) {
                proof {
                    assert(es[i - 1].0 == parsed@[i - 1].0@);
                    assert(es[i as int].0 == parsed@[i as int].0@);
                    assert(!server_names_sorted(es));
                }
                return 0;
            }
            proof {
                assert forall|a: int, b: int| 0 <= a < b < i + 1 implies str_lt(
                    (#[trigger] es[a]).0,
                    (#[trigger] es[b]).0,
                ) by {
                    assert(es[a].0 == parsed@[a].0@);
                    assert(es[b].0 == parsed@[b].0@);
                    if b == i {
                        if a < i - 1 {
                            assert(str_lt(parsed@[a].0@, parsed@[i - 1].0@));
                            lemma_str_lt_trans(parsed@[a].0@, parsed@[i - 1].0@, parsed@[b].0@);
                        }
                    }
                }
                assert forall|a: int, b: int| 0 <= a < b < i + 1 implies str_lt(
                    (#[trigger] parsed@[a]).0@,
                    (#[trigger] parsed@[b]).0@,
                ) by {
                    assert(es[a].0 == parsed@[a].0@);
                    assert(es[b].0 == parsed@[b].0@);
                    assert(str_lt(es[a].0, es[b].0));
                }
            }
            i = i + 1;
        }
        proof {
            assert(server_names_sorted(es));
        }
        let count = parsed.len();
        let mut k: usize = 0;
        let mut rest = parsed;
        while k < count
            invariant
                self.wf(),
                es == crate::persist::server_texts(rest@) && rest@.len() == count,
                crate::persist::parse_servers_file(data@) == Some(es),
                server_names_sorted(es),
                k <= count,
                self.entries().len() == k,
                forall|a: int|
                    0 <= a < k ==> (#[trigger] self.entries()[a]).0@ == es[a].0
                        && render_address(self.entries()[a].1) == es[a].1,
                forall|a: int| 0 <= a < k ==> #[trigger] self.entries()[a] == rest@[a],
            decreases count - k,
        {
            let entry = (rest[k].0.clone(), rest[k].1);
            proof {
                assert(entry.0@ == rest@[k as int].0@);
            }
            self.entries.push(entry);
            proof {
                assert forall|a: int, b: int|
                    0 <= a < b < self.entries@.len() implies str_lt(
                    (#[trigger] self.entries@[a]).0@,
                    (#[trigger] self.entries@[b]).0@,
                ) by {
                    assert(self.entries@[a].0@ == es[a].0);
                    assert(self.entries@[b].0@ == es[b].0);
                    assert(str_lt(es[a].0, es[b].0));
                }
            }
            k = k + 1;
        }
        proof {
            assert(crate::persist::server_texts(self.entries()) =~= es);
        }
        count
    }
}

/// Law: the servers snapshot of a well-formed directory reads back as
/// exactly its entries, and those entries load cleanly, so saving,
/// loading and saving again writes the identical snapshot.
pub proof fn lemma_servers_save_round_trip(dir: ServerDirectory)
    requires
        dir.wf(),
    ensures
        crate::persist::parse_servers_file(
            crate::persist::render_servers_file(crate::persist::server_texts(dir.entries())),
        ) == Some(crate::persist::server_texts(dir.entries())),
        server_names_sorted(crate::persist::server_texts(dir.entries())),
{
    let es = crate::persist::server_texts(dir.entries());
    assert forall|k: int|
        0 <= k < es.len() implies exists|ad: ServerAddress| (#[trigger] es[k]).1
        == render_address(ad) by {
        assert(es[k].1 == render_address(dir.entries()[k].1));
    }
    crate::persist::lemma_parse_servers_render(es);
    assert forall|i: int, j: int| 0 <= i < j < es.len() implies str_lt(
        (#[trigger] es[i]).0,
        (#[trigger] es[j]).0,
    ) by {
        assert(es[i].0 == dir.entries()[i].0@);
        assert(es[j].0 == dir.entries()[j].0@);
        assert(str_lt(dir.entries()[i].0@, dir.entries()[j].0@));
    }
}

} // verus!



