//! IPv4 addresses as plain octets: decimal text, parsing, formatting, and the
//! candidate-address heuristics built on them.

use vstd::prelude::*;

verus! {

/// An IPv4 address held as its four octets.
#[derive(Clone, Copy, PartialEq, Eq, Structural, Debug)]
pub struct Ipv4 {
    pub a: u8,
    pub b: u8,
    pub c: u8,
    pub d: u8,
}

/// The ten decimal digit characters.
pub open spec fn is_digit(c: char) -> bool {
    c == '0' || c == '1' || c == '2' || c == '3' || c == '4' || c == '5' || c == '6' || c == '7'
        || c == '8' || c == '9'
}

/// The digit character for a value between 0 and 9.
pub open spec fn digit_char(v: int) -> char {
    if v == 0 {
        '0'
    } else if v == 1 {
        '1'
    } else if v == 2 {
        '2'
    } else if v == 3 {
        '3'
    } else if v == 4 {
        '4'
    } else if v == 5 {
        '5'
    } else if v == 6 {
        '6'
    } else if v == 7 {
        '7'
    } else if v == 8 {
        '8'
    } else {
        '9'
    }
}

/// The value of a digit character; 0 for anything else.
pub open spec fn digit_val(c: char) -> int {
    if c == '0' {
        0
    } else if c == '1' {
        1
    } else if c == '2' {
        2
    } else if c == '3' {
        3
    } else if c == '4' {
        4
    } else if c == '5' {
        5
    } else if c == '6' {
        6
    } else if c == '7' {
        7
    } else if c == '8' {
        8
    } else {
        9
    }
}

/// The canonical decimal text of an octet value: one to three digits, no
/// leading zero.
pub open spec fn octet_text(v: int) -> Seq<char>
    recommends
        0 <= v <= 255,
{
    if v < 10 {
        seq![digit_char(v)]
    } else if v < 100 {
        seq![digit_char(v / 10), digit_char(v % 10)]
    } else {
        seq![digit_char(v / 100), digit_char((v / 10) % 10), digit_char(v % 10)]
    }
}

/// The canonical dotted-quad text of an address.
pub open spec fn ip_text(ip: Ipv4) -> Seq<char> {
    octet_text(ip.a as int) + seq!['.'] + octet_text(ip.b as int) + seq!['.'] + octet_text(
        ip.c as int,
    ) + seq!['.'] + octet_text(ip.d as int)
}

/// A canonical octet text stands in `s` from `start` to `end`, with value `v`,
/// and the run of digits stops at `end`.
pub open spec fn octet_read(s: Seq<char>, start: int, v: int, end: int) -> bool {
    &&& 0 <= start <= end <= s.len()
    &&& 0 <= v <= 255
    &&& s.subrange(start, end) == octet_text(v)
    &&& (end == s.len() || !is_digit(s[end]))
}

proof fn lemma_digit_roundtrip()
    ensures
        forall|v: int| 0 <= v <= 9 ==> digit_val(#[trigger] digit_char(v)) == v,
        forall|v: int| 0 <= v <= 9 ==> is_digit(#[trigger] digit_char(v)),
        forall|c: char| is_digit(c) ==> digit_char(#[trigger] digit_val(c)) == c,
{
}

/// The shape of a canonical octet text: all digits, one to three of them, and
/// no leading zero unless the value is zero itself.
proof fn lemma_octet_text_shape(v: int)
    requires
        0 <= v <= 255,
    ensures
        1 <= octet_text(v).len() <= 3,
        forall|i: int| 0 <= i < octet_text(v).len() ==> is_digit(#[trigger] octet_text(v)[i]),
        v >= 10 ==> octet_text(v)[0] != '0',
        v < 10 ==> octet_text(v).len() == 1,
        10 <= v < 100 ==> octet_text(v).len() == 2,
        v >= 100 ==> octet_text(v).len() == 3,
{
    lemma_digit_roundtrip();
    if v >= 10 && v < 100 {
        assert(1 <= v / 10 <= 9);
    }
    if v >= 100 {
        assert(1 <= v / 100 <= 2);
    }
}

/// Two canonical octet texts that are equal carry the same value.
proof fn lemma_octet_text_injective(v1: int, v2: int)
    requires
        0 <= v1 <= 255,
        0 <= v2 <= 255,
        octet_text(v1) == octet_text(v2),
    ensures
        v1 == v2,
{
    lemma_octet_text_shape(v1);
    lemma_octet_text_shape(v2);
    lemma_digit_roundtrip();
    if v1 < 10 && v2 < 10 {
        assert(digit_val(octet_text(v1)[0]) == v1);
        assert(digit_val(octet_text(v2)[0]) == v2);
    } else if 10 <= v1 < 100 && 10 <= v2 < 100 {
        assert(digit_val(octet_text(v1)[0]) * 10 + digit_val(octet_text(v1)[1]) == v1);
        assert(digit_val(octet_text(v2)[0]) * 10 + digit_val(octet_text(v2)[1]) == v2);
    } else if v1 >= 100 && v2 >= 100 {
        assert(digit_val(octet_text(v1)[0]) * 100 + digit_val(octet_text(v1)[1]) * 10 + digit_val(
            octet_text(v1)[2],
        ) == v1);
        assert(digit_val(octet_text(v2)[0]) * 100 + digit_val(octet_text(v2)[1]) * 10 + digit_val(
            octet_text(v2)[2],
        ) == v2);
    }
}

/// At one position of one text, at most one octet read is possible.
proof fn lemma_octet_read_unique(s: Seq<char>, start: int, v1: int, e1: int, v2: int, e2: int)
    requires
        octet_read(s, start, v1, e1),
        octet_read(s, start, v2, e2),
    ensures
        v1 == v2,
        e1 == e2,
{
    lemma_octet_text_shape(v1);
    lemma_octet_text_shape(v2);
    if e1 < e2 {
        assert(is_digit(s.subrange(start, e2)[e1 - start]));
        assert(s.subrange(start, e2)[e1 - start] == s[e1]);
    }
    if e2 < e1 {
        assert(is_digit(s.subrange(start, e1)[e2 - start]));
        assert(s.subrange(start, e1)[e2 - start] == s[e2]);
    }
    assert(e1 == e2);
    assert(s.subrange(start, e1) == s.subrange(start, e2));
    lemma_octet_text_injective(v1, v2);
}

/// Where each octet and each dot stands inside the dotted-quad text.
proof fn lemma_ip_text_structure(ip: Ipv4)
    ensures
        ({
            let la = octet_text(ip.a as int).len() as int;
            let lb = octet_text(ip.b as int).len() as int;
            let lc = octet_text(ip.c as int).len() as int;
            let ld = octet_text(ip.d as int).len() as int;
            let t = ip_text(ip);
            &&& t.len() == la + lb + lc + ld + 3
            &&& t.subrange(0, la) == octet_text(ip.a as int)
            &&& t[la] == '.'
            &&& t.subrange(la + 1, la + 1 + lb) == octet_text(ip.b as int)
            &&& t[la + 1 + lb] == '.'
            &&& t.subrange(la + lb + 2, la + lb + 2 + lc) == octet_text(ip.c as int)
            &&& t[la + lb + 2 + lc] == '.'
            &&& t.subrange(la + lb + lc + 3, la + lb + lc + 3 + ld) == octet_text(ip.d as int)
        }),
{
    let la = octet_text(ip.a as int).len() as int;
    let lb = octet_text(ip.b as int).len() as int;
    let lc = octet_text(ip.c as int).len() as int;
    let ld = octet_text(ip.d as int).len() as int;
    let t = ip_text(ip);
    assert(t.subrange(0, la) =~= octet_text(ip.a as int));
    assert(t.subrange(la + 1, la + 1 + lb) =~= octet_text(ip.b as int));
    assert(t.subrange(la + lb + 2, la + lb + 2 + lc) =~= octet_text(ip.c as int));
    assert(t.subrange(la + lb + lc + 3, la + lb + lc + 3 + ld) =~= octet_text(ip.d as int));
}

/// A text that is the dotted-quad form of an address carries the four octet
/// reads and the three dots at fixed places.
proof fn lemma_text_reads(s: Seq<char>, ip: Ipv4)
    requires
        s == ip_text(ip),
    ensures
        ({
            let la = octet_text(ip.a as int).len() as int;
            let lb = octet_text(ip.b as int).len() as int;
            let lc = octet_text(ip.c as int).len() as int;
            let ld = octet_text(ip.d as int).len() as int;
            &&& 1 <= la <= 3
            &&& 1 <= lb <= 3
            &&& 1 <= lc <= 3
            &&& 1 <= ld <= 3
            &&& s.len() == la + lb + lc + ld + 3
            &&& octet_read(s, 0, ip.a as int, la)
            &&& s[la] == '.'
            &&& octet_read(s, la + 1, ip.b as int, la + 1 + lb)
            &&& s[la + 1 + lb] == '.'
            &&& octet_read(s, la + lb + 2, ip.c as int, la + lb + 2 + lc)
            &&& s[la + lb + 2 + lc] == '.'
            &&& octet_read(s, la + lb + lc + 3, ip.d as int, s.len() as int)
        }),
{
    lemma_ip_text_structure(ip);
    lemma_octet_text_shape(ip.a as int);
    lemma_octet_text_shape(ip.b as int);
    lemma_octet_text_shape(ip.c as int);
    lemma_octet_text_shape(ip.d as int);
    let la = octet_text(ip.a as int).len() as int;
    let lb = octet_text(ip.b as int).len() as int;
    let lc = octet_text(ip.c as int).len() as int;
    let ld = octet_text(ip.d as int).len() as int;
    assert(s.subrange(la + lb + lc + 3, s.len() as int) == octet_text(ip.d as int));
}

/// A text with no octet read at its start is the text of no address.
proof fn lemma_reject_no_octet1(s: Seq<char>)
    requires
        forall|v: int, e: int| !octet_read(s, 0, v, e),
    ensures
        forall|ip: Ipv4| s != ip_text(ip),
{
    assert forall|ip: Ipv4| s != ip_text(ip) by {
        if s == ip_text(ip) {
            lemma_text_reads(s, ip);
        }
    }
}

/// A text whose first octet read is not followed by a dot is the text of no
/// address.
proof fn lemma_reject_dot1(s: Seq<char>, o1: int, p1: int)
    requires
        octet_read(s, 0, o1, p1),
        p1 >= s.len() || s[p1] != '.',
    ensures
        forall|ip: Ipv4| s != ip_text(ip),
{
    assert forall|ip: Ipv4| s != ip_text(ip) by {
        if s == ip_text(ip) {
            lemma_text_reads(s, ip);
            lemma_octet_read_unique(s, 0, o1, p1, ip.a as int, octet_text(ip.a as int).len() as int);
        }
    }
}

/// A text with no octet read after its first dot is the text of no address.
proof fn lemma_reject_no_octet2(s: Seq<char>, o1: int, p1: int, q1: int)
    requires
        q1 == p1 + 1,
        octet_read(s, 0, o1, p1),
        forall|v: int, e: int| !octet_read(s, q1, v, e),
    ensures
        forall|ip: Ipv4| s != ip_text(ip),
{
    assert forall|ip: Ipv4| s != ip_text(ip) by {
        if s == ip_text(ip) {
            lemma_text_reads(s, ip);
            let la = octet_text(ip.a as int).len() as int;
            lemma_octet_read_unique(s, 0, o1, p1, ip.a as int, la);
            assert(octet_read(s, p1 + 1, ip.b as int, la + 1 + octet_text(ip.b as int).len()));
        }
    }
}

/// A text whose second octet read is not followed by a dot is the text of no
/// address.
proof fn lemma_reject_dot2(s: Seq<char>, o1: int, p1: int, o2: int, p2: int)
    requires
        octet_read(s, 0, o1, p1),
        octet_read(s, p1 + 1, o2, p2),
        p2 >= s.len() || s[p2] != '.',
    ensures
        forall|ip: Ipv4| s != ip_text(ip),
{
    assert forall|ip: Ipv4| s != ip_text(ip) by {
        if s == ip_text(ip) {
            lemma_text_reads(s, ip);
            let la = octet_text(ip.a as int).len() as int;
            let lb = octet_text(ip.b as int).len() as int;
            lemma_octet_read_unique(s, 0, o1, p1, ip.a as int, la);
            lemma_octet_read_unique(s, p1 + 1, o2, p2, ip.b as int, la + 1 + lb);
        }
    }
}

/// A text with no octet read after its second dot is the text of no address.
proof fn lemma_reject_no_octet3(s: Seq<char>, o1: int, p1: int, o2: int, p2: int, q2: int)
    requires
        q2 == p2 + 1,
        octet_read(s, 0, o1, p1),
        octet_read(s, p1 + 1, o2, p2),
        forall|v: int, e: int| !octet_read(s, q2, v, e),
    ensures
        forall|ip: Ipv4| s != ip_text(ip),
{
    assert forall|ip: Ipv4| s != ip_text(ip) by {
        if s == ip_text(ip) {
            lemma_text_reads(s, ip);
            let la = octet_text(ip.a as int).len() as int;
            let lb = octet_text(ip.b as int).len() as int;
            lemma_octet_read_unique(s, 0, o1, p1, ip.a as int, la);
            lemma_octet_read_unique(s, p1 + 1, o2, p2, ip.b as int, la + 1 + lb);
            assert(octet_read(s, p2 + 1, ip.c as int, la + lb + 2 + octet_text(ip.c as int).len()));
        }
    }
}

/// A text whose third octet read is not followed by a dot is the text of no
/// address.
proof fn lemma_reject_dot3(s: Seq<char>, o1: int, p1: int, o2: int, p2: int, o3: int, p3: int)
    requires
        octet_read(s, 0, o1, p1),
        octet_read(s, p1 + 1, o2, p2),
        octet_read(s, p2 + 1, o3, p3),
        p3 >= s.len() || s[p3] != '.',
    ensures
        forall|ip: Ipv4| s != ip_text(ip),
{
    assert forall|ip: Ipv4| s != ip_text(ip) by {
        if s == ip_text(ip) {
            lemma_text_reads(s, ip);
            let la = octet_text(ip.a as int).len() as int;
            let lb = octet_text(ip.b as int).len() as int;
            let lc = octet_text(ip.c as int).len() as int;
            lemma_octet_read_unique(s, 0, o1, p1, ip.a as int, la);
            lemma_octet_read_unique(s, p1 + 1, o2, p2, ip.b as int, la + 1 + lb);
            lemma_octet_read_unique(s, p2 + 1, o3, p3, ip.c as int, la + lb + 2 + lc);
        }
    }
}

/// A text with no octet read after its third dot is the text of no address.
proof fn lemma_reject_no_octet4(
    s: Seq<char>,
    o1: int,
    p1: int,
    o2: int,
    p2: int,
    o3: int,
    p3: int,
    q3: int,
)
    requires
        q3 == p3 + 1,
        octet_read(s, 0, o1, p1),
        octet_read(s, p1 + 1, o2, p2),
        octet_read(s, p2 + 1, o3, p3),
        forall|v: int, e: int| !octet_read(s, q3, v, e),
    ensures
        forall|ip: Ipv4| s != ip_text(ip),
{
    assert forall|ip: Ipv4| s != ip_text(ip) by {
        if s == ip_text(ip) {
            lemma_text_reads(s, ip);
            let la = octet_text(ip.a as int).len() as int;
            let lb = octet_text(ip.b as int).len() as int;
            let lc = octet_text(ip.c as int).len() as int;
            lemma_octet_read_unique(s, 0, o1, p1, ip.a as int, la);
            lemma_octet_read_unique(s, p1 + 1, o2, p2, ip.b as int, la + 1 + lb);
            lemma_octet_read_unique(s, p2 + 1, o3, p3, ip.c as int, la + lb + 2 + lc);
            assert(octet_read(s, p3 + 1, ip.d as int, s.len() as int));
        }
    }
}

/// A text whose fourth octet read stops short of the end is the text of no
/// address.
proof fn lemma_reject_tail(
    s: Seq<char>,
    o1: int,
    p1: int,
    o2: int,
    p2: int,
    o3: int,
    p3: int,
    o4: int,
    p4: int,
)
    requires
        octet_read(s, 0, o1, p1),
        octet_read(s, p1 + 1, o2, p2),
        octet_read(s, p2 + 1, o3, p3),
        octet_read(s, p3 + 1, o4, p4),
        p4 != s.len(),
    ensures
        forall|ip: Ipv4| s != ip_text(ip),
{
    assert forall|ip: Ipv4| s != ip_text(ip) by {
        if s == ip_text(ip) {
            lemma_text_reads(s, ip);
            let la = octet_text(ip.a as int).len() as int;
            let lb = octet_text(ip.b as int).len() as int;
            let lc = octet_text(ip.c as int).len() as int;
            lemma_octet_read_unique(s, 0, o1, p1, ip.a as int, la);
            lemma_octet_read_unique(s, p1 + 1, o2, p2, ip.b as int, la + 1 + lb);
            lemma_octet_read_unique(s, p2 + 1, o3, p3, ip.c as int, la + lb + 2 + lc);
            lemma_octet_read_unique(s, p3 + 1, o4, p4, ip.d as int, s.len() as int);
        }
    }
}

/// The four octet reads and the three dots together pin the text down as the
/// dotted-quad form of the address they spell.
proof fn lemma_accept(
    s: Seq<char>,
    ip: Ipv4,
    p1: int,
    p2: int,
    p3: int,
)
    requires
        octet_read(s, 0, ip.a as int, p1),
        octet_read(s, p1 + 1, ip.b as int, p2),
        octet_read(s, p2 + 1, ip.c as int, p3),
        octet_read(s, p3 + 1, ip.d as int, s.len() as int),
        p1 < s.len() && s[p1] == '.',
        p2 < s.len() && s[p2] == '.',
        p3 < s.len() && s[p3] == '.',
    ensures
        s == ip_text(ip),
{
    assert(s.subrange(p1, p1 + 1) =~= seq!['.']);
    assert(s.subrange(p2, p2 + 1) =~= seq!['.']);
    assert(s.subrange(p3, p3 + 1) =~= seq!['.']);
    assert(s =~= s.subrange(0, p1) + s.subrange(p1, p1 + 1) + s.subrange(p1 + 1, p2) + s.subrange(
        p2,
        p2 + 1,
    ) + s.subrange(p2 + 1, p3) + s.subrange(p3, p3 + 1) + s.subrange(p3 + 1, s.len() as int));
    assert(s == ip_text(ip));
}

/// The value of a digit character, or `None` for any other character.
fn digit_value(c: char) -> (r: Option<u8>)
    ensures
        match r {
            Some(v) => v <= 9 && is_digit(c) && v as int == digit_val(c),
            None => !is_digit(c),
        },
{
    match c {
        '0' => Some(0),
        '1' => Some(1),
        '2' => Some(2),
        '3' => Some(3),
        '4' => Some(4),
        '5' => Some(5),
        '6' => Some(6),
        '7' => Some(7),
        '8' => Some(8),
        '9' => Some(9),
        _ => None,
    }
}

/// Reads the canonical octet text that begins at `start`, if one stands there.
fn parse_octet(s: &str, start: usize, n: usize) -> (r: Option<(u8, usize)>)
    requires
        n == s@.len(),
        start <= n,
    ensures
        match r {
            Some(p) => octet_read(s@, start as int, p.0 as int, p.1 as int),
            None => forall|v: int, e: int| !octet_read(s@, start as int, v, e),
        },
{
    proof {
        lemma_digit_roundtrip();
    }
    if start >= n {
        proof {
            assert forall|v: int, e: int| !octet_read(s@, start as int, v, e) by {
                if octet_read(s@, start as int, v, e) {
                    lemma_octet_text_shape(v);
                    assert(s@.subrange(start as int, e).len() == octet_text(v).len());
                }
            }
        }
        return None;
    }
    let c0 = s.get_char(start);
    let d0 = match digit_value(c0) {
        Some(d) => d,
        None => {
            proof {
                assert forall|v: int, e: int| !octet_read(s@, start as int, v, e) by {
                    if octet_read(s@, start as int, v, e) {
                        lemma_octet_text_shape(v);
                        assert(s@.subrange(start as int, e).len() == octet_text(v).len());
                        assert(s@.subrange(start as int, e)[0] == s@[start as int]);
                        assert(is_digit(c0));
                    }
                }
            }
            return None;
        },
    };
    if d0 == 0 {
        // The canonical text of zero is the single digit 0; a digit after it
        // means no canonical octet stands here.
        if start + 1 < n {
            let c1 = s.get_char(start + 1);
            if digit_value(c1).is_some() {
                proof {
                    assert forall|v: int, e: int| !octet_read(s@, start as int, v, e) by {
                        if octet_read(s@, start as int, v, e) {
                            lemma_octet_text_shape(v);
                            assert(s@.subrange(start as int, e)[0] == s@[start as int]);
                            assert(octet_text(v)[0] == '0');
                            assert(v < 10);
                            assert(e == start + 1);
                            assert(is_digit(s@[e]));
                        }
                    }
                }
                return None;
            }
        }
        proof {
            assert(s@.subrange(start as int, start as int + 1) =~= octet_text(0));
        }
        return Some((0, start + 1));
    }
    let mut val: u16 = d0 as u16;
    let mut end = start + 1;
    let ghost d_first = d0 as int;
    let ghost mut digits: Seq<int> = seq![d0 as int];
    if end < n {
        if let Some(d1) = digit_value(s.get_char(end)) {
            val = val * 10 + d1 as u16;
            end = end + 1;
            proof {
                digits = digits.push(d1 as int);
            }
            if end < n {
                if let Some(d2) = digit_value(s.get_char(end)) {
                    val = val * 10 + d2 as u16;
                    end = end + 1;
                    proof {
                        digits = digits.push(d2 as int);
                    }
                    if end < n {
                        let c3 = s.get_char(end);
                        if digit_value(c3).is_some() {
                            // four digits in a row: longer than any octet text
                            proof {
                                assert forall|v: int, e: int| !octet_read(
                                    s@,
                                    start as int,
                                    v,
                                    e,
                                ) by {
                                    if octet_read(s@, start as int, v, e) {
                                        lemma_octet_text_shape(v);
                                        assert(e - start == octet_text(v).len());
                                        assert(start + 1 <= e <= start + 3);
                                        assert(is_digit(s@[e]));
                                        assert(e < n);
                                        assert(false);
                                    }
                                }
                            }
                            return None;
                        }
                    }
                }
            }
        }
    }
    if val > 255 {
        // a three-digit run above 255 is no octet
        proof {
            assert(end == start + 3);
            assert forall|v: int, e: int| !octet_read(s@, start as int, v, e) by {
                if octet_read(s@, start as int, v, e) {
                    lemma_octet_text_shape(v);
                    if e < end as int {
                        assert(is_digit(s@[e]));
                        assert(false);
                    }
                    assert(e == end as int);
                    assert(octet_text(v) == s@.subrange(start as int, end as int));
                    assert(octet_text(v).len() == 3);
                    assert(v >= 100);
                    assert(digit_val(octet_text(v)[0]) == v / 100);
                    assert(digit_val(octet_text(v)[1]) == (v / 10) % 10);
                    assert(digit_val(octet_text(v)[2]) == v % 10);
                    assert(v == (v / 100) * 100 + ((v / 10) % 10) * 10 + v % 10) by (nonlinear_arith)
                        requires
                            100 <= v <= 999,
                    ;
                    assert(v == val as int);
                }
            }
        }
        return None;
    }
    proof {
        if end == start + 1 {
            assert(val == d_first);
            assert(s@.subrange(start as int, end as int) =~= octet_text(val as int));
        } else if end == start + 2 {
            assert(val == d_first * 10 + digits[1]);
            assert(val as int / 10 == d_first && val as int % 10 == digits[1]) by (nonlinear_arith)
                requires
                    val == d_first * 10 + digits[1],
                    1 <= d_first <= 9,
                    0 <= digits[1] <= 9,
            ;
            assert(s@.subrange(start as int, end as int) =~= octet_text(val as int));
        } else {
            assert(end == start + 3);
            assert(val == (d_first * 10 + digits[1]) * 10 + digits[2]);
            assert(val as int / 100 == d_first && (val as int / 10) % 10 == digits[1] && val as int
                % 10 == digits[2]) by (nonlinear_arith)
                requires
                    val == (d_first * 10 + digits[1]) * 10 + digits[2],
                    1 <= d_first <= 9,
                    0 <= digits[1] <= 9,
                    0 <= digits[2] <= 9,
            ;
            assert(s@.subrange(start as int, end as int) =~= octet_text(val as int));
        }
    }
    Some((val as u8, end))
}

/// The digit character for a value between 0 and 9, as a one-character text.
fn digit_str(d: u8) -> (r: &'static str)
    requires
        d <= 9,
    ensures
        r@ =~= seq![digit_char(d as int)],
{
    proof {
        reveal_strlit("0");
        reveal_strlit("1");
        reveal_strlit("2");
        reveal_strlit("3");
        reveal_strlit("4");
        reveal_strlit("5");
        reveal_strlit("6");
        reveal_strlit("7");
        reveal_strlit("8");
        reveal_strlit("9");
    }
    match d {
        0 => "0",
        1 => "1",
        2 => "2",
        3 => "3",
        4 => "4",
        5 => "5",
        6 => "6",
        7 => "7",
        8 => "8",
        _ => "9",
    }
}

/// The canonical decimal text of one octet.
fn octet_string(v: u8) -> (r: String)
    ensures
        r@ == octet_text(v as int),
{
    let mut s = String::new();
    if v >= 100 {
        s.append(digit_str(v / 100));
        s.append(digit_str((v / 10) % 10));
        s.append(digit_str(v % 10));
        proof {
            assert(s@ =~= octet_text(v as int));
        }
    } else if v >= 10 {
        s.append(digit_str(v / 10));
        s.append(digit_str(v % 10));
        proof {
            assert(s@ =~= octet_text(v as int));
        }
    } else {
        s.append(digit_str(v));
        proof {
            assert(s@ =~= octet_text(v as int));
        }
    }
    s
}

impl Ipv4 {
    /// Reads a dotted-quad text. Returns the address whose canonical text the
    /// whole input is, and `None` when the input is the text of no address.
    pub fn parse(s: &str) -> (r: Option<Ipv4>)
        ensures
            match r {
                Some(ip) => s@ == ip_text(ip),
                None => forall|ip: Ipv4| s@ != ip_text(ip),
            },
    {
        let n = s.unicode_len();
        let (o1, p1) = match parse_octet(s, 0, n) {
            Some(p) => p,
            None => {
                proof {
                    lemma_reject_no_octet1(s@);
                }
                return None;
            },
        };
        if p1 >= n || s.get_char(p1) != '.' {
            proof {
                lemma_reject_dot1(s@, o1 as int, p1 as int);
            }
            return None;
        }
        let (o2, p2) = match parse_octet(s, p1 + 1, n) {
            Some(p) => p,
            None => {
                proof {
                    lemma_reject_no_octet2(s@, o1 as int, p1 as int, p1 as int + 1);
                }
                return None;
            },
        };
        if p2 >= n || s.get_char(p2) != '.' {
            proof {
                lemma_reject_dot2(s@, o1 as int, p1 as int, o2 as int, p2 as int);
            }
            return None;
        }
        let (o3, p3) = match parse_octet(s, p2 + 1, n) {
            Some(p) => p,
            None => {
                proof {
                    lemma_reject_no_octet3(s@, o1 as int, p1 as int, o2 as int, p2 as int, p2 as int + 1);
                }
                return None;
            },
        };
        if p3 >= n || s.get_char(p3) != '.' {
            proof {
                lemma_reject_dot3(s@, o1 as int, p1 as int, o2 as int, p2 as int, o3 as int, p3 as int);
            }
            return None;
        }
        let (o4, p4) = match parse_octet(s, p3 + 1, n) {
            Some(p) => p,
            None => {
                proof {
                    lemma_reject_no_octet4(s@, o1 as int, p1 as int, o2 as int, p2 as int, o3 as int, p3 as int, p3 as int + 1);
                }
                return None;
            },
        };
        if p4 != n {
            proof {
                lemma_reject_tail(
                    s@,
                    o1 as int,
                    p1 as int,
                    o2 as int,
                    p2 as int,
                    o3 as int,
                    p3 as int,
                    o4 as int,
                    p4 as int,
                );
            }
            return None;
        }
        let ip = Ipv4 { a: o1, b: o2, c: o3, d: o4 };
        proof {
            lemma_accept(s@, ip, p1 as int, p2 as int, p3 as int);
        }
        Some(ip)
    }

    /// The dotted-quad text of the address.
    pub fn to_text(&self) -> (r: String)
        ensures
            r@ == ip_text(*self),
    {
        proof {
            reveal_strlit(".");
        }
        let mut s = octet_string(self.a);
        s.append(".");
        let sb = octet_string(self.b);
        s.append(sb.as_str());
        s.append(".");
        let sc = octet_string(self.c);
        s.append(sc.as_str());
        s.append(".");
        let sd = octet_string(self.d);
        s.append(sd.as_str());
        proof {
            assert("."@ =~= seq!['.']);
            assert(s@ =~= ip_text(*self));
        }
        s
    }
}

/// Common router or broadcast addresses end in .1, .254, or .255.
pub open spec fn spec_is_likely_router_ip(ip: Ipv4) -> bool {
    ip.d == 1 || ip.d == 254 || ip.d == 255
}

/// The address whose canonical dotted-quad text a text is, if any.
pub open spec fn spec_parse_ipv4(s: Seq<char>) -> Option<Ipv4> {
    if exists|ip: Ipv4| s == ip_text(ip) {
        Some(choose|ip: Ipv4| s == ip_text(ip))
    } else {
        None
    }
}

/// Two addresses with the same dotted-quad text are the same address.
pub proof fn lemma_ip_text_injective(ip1: Ipv4, ip2: Ipv4)
    requires
        ip_text(ip1) == ip_text(ip2),
    ensures
        ip1 == ip2,
{
    let s = ip_text(ip1);
    lemma_text_reads(s, ip1);
    lemma_text_reads(s, ip2);
    let la = octet_text(ip1.a as int).len() as int;
    let lb = octet_text(ip1.b as int).len() as int;
    let lc = octet_text(ip1.c as int).len() as int;
    lemma_octet_read_unique(
        s,
        0,
        ip1.a as int,
        la,
        ip2.a as int,
        octet_text(ip2.a as int).len() as int,
    );
    lemma_octet_read_unique(
        s,
        la + 1,
        ip1.b as int,
        la + 1 + lb,
        ip2.b as int,
        la + 1 + octet_text(ip2.b as int).len() as int,
    );
    lemma_octet_read_unique(
        s,
        la + lb + 2,
        ip1.c as int,
        la + lb + 2 + lc,
        ip2.c as int,
        la + lb + 2 + octet_text(ip2.c as int).len() as int,
    );
    lemma_octet_read_unique(
        s,
        la + lb + lc + 3,
        ip1.d as int,
        s.len() as int,
        ip2.d as int,
        s.len() as int,
    );
}

/// The text of a given address reads back as that address and no other.
pub proof fn lemma_spec_parse_exact(s: Seq<char>, ip: Ipv4)
    requires
        s == ip_text(ip),
    ensures
        spec_parse_ipv4(s) == Some(ip),
{
    let w = choose|w: Ipv4| s == ip_text(w);
    lemma_ip_text_injective(w, ip);
}

/// Reads a dotted-quad text as an address.
pub fn parse_ipv4(s: &str) -> (r: Option<Ipv4>)
    ensures
        r == spec_parse_ipv4(s@),
{
    let r = Ipv4::parse(s);
    proof {
        match r {
            Some(ip) => lemma_spec_parse_exact(s@, ip),
            None => {
                if exists|w: Ipv4| s@ == ip_text(w) {
                    let w = choose|w: Ipv4| s@ == ip_text(w);
                    assert(s@ != ip_text(w));
                }
            },
        }
    }
    r
}

impl Ipv4 {
    /// Heuristic exclusion of routers and broadcast addresses from scan
    /// candidates.
    pub fn is_likely_router_ip(&self) -> (r: bool)
        ensures
            r == spec_is_likely_router_ip(*self),
    {
        self.d == 1 || self.d == 254 || self.d == 255
    }

    /// The 254 host addresses of the /24 network this address sits in, in
    /// order, with final octets 1 through 254.
    pub fn subnet_range(&self) -> (r: Vec<Ipv4>)
        ensures
            r@.len() == 254,
            forall|i: int|
                0 <= i < 254 ==> r@[i] == (Ipv4 {
                    a: self.a,
                    b: self.b,
                    c: self.c,
                    d: (i + 1) as u8,
                }),
    {
        let mut v: Vec<Ipv4> = Vec::new();
        let mut i: usize = 1;
        while i < 255
            invariant
                1 <= i <= 255,
                v@.len() == i - 1,
                forall|j: int|
                    0 <= j < i - 1 ==> v@[j] == (Ipv4 {
                        a: self.a,
                        b: self.b,
                        c: self.c,
                        d: (j + 1) as u8,
                    }),
            decreases 255 - i,
        {
            v.push(Ipv4 { a: self.a, b: self.b, c: self.c, d: i as u8 });
            i += 1;
        }
        v
    }
}

} // verus!
