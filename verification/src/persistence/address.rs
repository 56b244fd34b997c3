//! Socket addresses. A deployment's bound socket is carried through scope
//! attributes as text of the form `a.b.c.d:port` and stored structurally;
//! parsing rejects anything but a plain IPv4 socket written without leading
//! zeros.

use vstd::prelude::*;

verus! {

/// The TCP socket a deployment is bound to while loading and running.
#[derive(Clone, Copy, Debug, PartialEq, Eq, Structural, Hash)]
pub struct Address {
    pub a: u8,
    pub b: u8,
    pub c: u8,
    pub d: u8,
    pub port: u16,
}

impl Address {
    pub fn new(a: u8, b: u8, c: u8, d: u8, port: u16) -> (r: Address)
        ensures
            r == (Address { a, b, c, d, port }),
    {
        Address { a, b, c, d, port }
    }
}

pub open spec fn is_digit(c: char) -> bool {
    ('0' as u32) <= (c as u32) && (c as u32) <= ('9' as u32)
}

pub open spec fn digit_val(c: char) -> int {
    (c as u32) - ('0' as u32)
}

pub open spec fn all_digits(s: Seq<char>) -> bool {
    forall|i: int| 0 <= i < s.len() ==> is_digit(#[trigger] s[i])
}

/// The value of a digit string read in base ten.
pub open spec fn digits_val(s: Seq<char>) -> int
    decreases s.len(),
{
    if s.len() == 0 {
        0
    } else {
        digits_val(s.drop_last()) * 10 + digit_val(s.last())
    }
}

/// A non-empty decimal numeral without leading zeros.
pub open spec fn is_plain_number(s: Seq<char>) -> bool {
    s.len() > 0 && all_digits(s) && (s.len() > 1 ==> s[0] != '0')
}

/// What an IPv4 octet field may hold: at most three digits valuing at most
/// 255.
pub open spec fn parse_octet_text(s: Seq<char>) -> Option<u8> {
    if is_plain_number(s) && s.len() <= 3 && digits_val(s) <= 255 {
        Some(digits_val(s) as u8)
    } else {
        None
    }
}

/// What a port field may hold: at most five digits valuing at most 65535.
pub open spec fn parse_port_text(s: Seq<char>) -> Option<u16> {
    if is_plain_number(s) && s.len() <= 5 && digits_val(s) <= 65535 {
        Some(digits_val(s) as u16)
    } else {
        None
    }
}

/// Index of the first occurrence of `c` in `s`.
pub open spec fn find_char(s: Seq<char>, c: char) -> Option<int>
    decreases s.len(),
{
    if s.len() == 0 {
        None
    } else if s[0] == c {
        Some(0)
    } else {
        match find_char(s.skip(1), c) {
            Some(i) => Some(i + 1),
            None => None,
        }
    }
}

/// Four dot-separated octets.
pub open spec fn parse_ip_text(s: Seq<char>) -> Option<(u8, u8, u8, u8)> {
    match find_char(s, '.') {
        None => None,
        Some(i1) => match parse_octet_text(s.take(i1)) {
            None => None,
            Some(o1) => {
                let r1 = s.skip(i1 + 1);
                match find_char(r1, '.') {
                    None => None,
                    Some(i2) => match parse_octet_text(r1.take(i2)) {
                        None => None,
                        Some(o2) => {
                            let r2 = r1.skip(i2 + 1);
                            match find_char(r2, '.') {
                                None => None,
                                Some(i3) => match parse_octet_text(r2.take(i3)) {
                                    None => None,
                                    Some(o3) => match parse_octet_text(r2.skip(i3 + 1)) {
                                        None => None,
                                        Some(o4) => Some((o1, o2, o3, o4)),
                                    },
                                },
                            }
                        },
                    },
                }
            },
        },
    }
}

/// The address written in `s`, split at the first colon into an IPv4 part
/// and a port part.
pub open spec fn spec_parse_address(s: Seq<char>) -> Option<Address> {
    match find_char(s, ':') {
        None => None,
        Some(ci) => match (parse_ip_text(s.take(ci)), parse_port_text(s.skip(ci + 1))) {
            (Some(o), Some(p)) => Some(Address { a: o.0, b: o.1, c: o.2, d: o.3, port: p }),
            _ => None,
        },
    }
}

/// `find_char` yields the first occurrence, or nothing when the character is
/// absent.
pub proof fn lemma_find_char_characterization(s: Seq<char>, c: char)
    ensures
        match find_char(s, c) {
            Some(i) => 0 <= i < s.len() && s[i] == c && (forall|k: int| 0 <= k < i ==> s[k] != c),
            None => forall|k: int| 0 <= k < s.len() ==> s[k] != c,
        },
    decreases s.len(),
{
    if s.len() > 0 && s[0] != c {
        lemma_find_char_characterization(s.skip(1), c);
        assert forall|k: int| 0 <= k < s.len() && s[k] == c implies exists|j: int|
            0 <= j < s.skip(1).len() && s.skip(1)[j] == c by {
            if k > 0 {
                assert(s.skip(1)[k - 1] == s[k]);
            }
        }
        match find_char(s.skip(1), c) {
            Some(i) => {
                assert(s.skip(1)[i] == s[i + 1]);
                assert forall|k: int| 0 <= k < i + 1 implies s[k] != c by {
                    if k > 0 {
                        assert(s.skip(1)[k - 1] == s[k]);
                    }
                }
            },
            None => {
                assert forall|k: int| 0 <= k < s.len() implies s[k] != c by {
                    if k > 0 {
                        assert(s.skip(1)[k - 1] == s[k]);
                    }
                }
            },
        }
    }
}

pub proof fn lemma_find_char_unique(s: Seq<char>, c: char, i: int)
    requires
        0 <= i < s.len(),
        s[i] == c,
        forall|k: int| 0 <= k < i ==> s[k] != c,
    ensures
        find_char(s, c) == Some(i),
{
    lemma_find_char_characterization(s, c);
    match find_char(s, c) {
        Some(j) => {
            if j < i {
                assert(s[j] != c);
            } else if j > i {
                assert(s[i] != c);
            }
        },
        None => {
            assert(s[i] != c);
        },
    }
}

pub proof fn lemma_find_char_none(s: Seq<char>, c: char)
    requires
        forall|k: int| 0 <= k < s.len() ==> s[k] != c,
    ensures
        find_char(s, c) == None::<int>,
{
    lemma_find_char_characterization(s, c);
    if let Some(i) = find_char(s, c) {
        assert(s[i] != c);
    }
}

/// Bounds on the value of a digit string, by its length.
pub proof fn lemma_digits_val_bounds(s: Seq<char>)
    requires
        all_digits(s),
    ensures
        0 <= digits_val(s),
        s.len() <= 1 ==> digits_val(s) <= 9,
        s.len() <= 2 ==> digits_val(s) <= 99,
        s.len() <= 3 ==> digits_val(s) <= 999,
        s.len() <= 4 ==> digits_val(s) <= 9999,
        s.len() <= 5 ==> digits_val(s) <= 99999,
    decreases s.len(),
{
    if s.len() > 0 {
        assert(all_digits(s.drop_last())) by {
            assert(forall|i: int|
                0 <= i < s.drop_last().len() ==> s.drop_last()[i] == s[i] && is_digit(#[trigger] s[i]));
        }
        lemma_digits_val_bounds(s.drop_last());
        assert(is_digit(s.last()));
        assert(0 <= digit_val(s.last()) <= 9);
    }
}

/// The characters of `s`, as an indexable vector.
pub fn chars_of(s: &str) -> (r: Vec<char>)
    ensures
        r@ == s@,
{
    let n = s.unicode_len();
    let mut r: Vec<char> = Vec::new();
    let mut i: usize = 0;
    while i < n
        invariant
            n == s@.len(),
            i <= n,
            r@ == s@.take(i as int),
        decreases n - i,
    {
        r.push(s.get_char(i));
        proof {
            assert(s@.take(i + 1) =~= s@.take(i as int).push(s@[i as int]));
        }
        i = i + 1;
    }
    proof {
        assert(s@.take(n as int) =~= s@);
    }
    r
}

/// First occurrence of `c` in `cs` at or after `from`.
fn find_from(cs: &Vec<char>, from: usize, c: char) -> (r: Option<usize>)
    requires
        from <= cs@.len(),
    ensures
        match r {
            Some(j) => from <= j < cs@.len() && cs@[j as int] == c && (forall|k: int|
                from <= k < j ==> cs@[k] != c),
            None => forall|k: int| from <= k < cs@.len() ==> cs@[k] != c,
        },
{
    let mut i: usize = from;
    let n = cs.len();
    while i < n
        invariant
            from <= i <= n,
            n == cs@.len(),
            forall|k: int| from <= k < i ==> cs@[k] != c,
        decreases n - i,
    {
        if cs[i] == c {
            return Some(i);
        }
        i = i + 1;
    }
    None
}

/// Reads the numeral in `cs[a..b]`, accepting at most `max_len` digits and a
/// value of at most `limit`.
fn parse_numeral(cs: &Vec<char>, a: usize, b: usize, max_len: usize, limit: u32) -> (r: Option<
    u32,
>)
    requires
        a <= b <= cs@.len(),
        max_len <= 5,
    ensures
        ({
            let w = cs@.subrange(a as int, b as int);
            match r {
                Some(v) => is_plain_number(w) && w.len() <= max_len && digits_val(w) == v && v
                    <= limit,
                None => !(is_plain_number(w) && w.len() <= max_len && digits_val(w) <= limit),
            }
        }),
{
    let ghost w = cs@.subrange(a as int, b as int);
    let total = cs.len();
    let n = b - a;
    if n == 0 || n > max_len {
        return None;
    }
    if n > 1 && cs[a] == '0' {
        assert(w[0] == '0');
        return None;
    }
    let mut v: u32 = 0;
    let mut k: usize = 0;
    while k < n
        invariant
            total == cs@.len(),
            a + n <= total,
            w == cs@.subrange(a as int, b as int),
            n == b - a,
            n == w.len(),
            n <= max_len <= 5,
            k <= n,
            all_digits(w.take(k as int)),
            v == digits_val(w.take(k as int)),
            v <= 99999,
        decreases n - k,
    {
        let ch = cs[a + k];
        assert(w[k as int] == cs@[a + k]);
        assert(w[k as int] == ch);
        let cu = ch as u32;
        if cu < 48 || cu > 57 {
            assert(!is_digit(w[k as int])) by {
                assert(('0' as u32) == 48 && ('9' as u32) == 57);
            }
            assert(!all_digits(w));
            return None;
        }
        proof {
            assert(('0' as u32) == 48 && ('9' as u32) == 57);
            assert(is_digit(w[k as int]));
            assert(w.take(k + 1).drop_last() =~= w.take(k as int));
            assert(w.take(k + 1).last() == w[k as int]);
            assert(all_digits(w.take(k + 1))) by {
                assert(forall|j: int|
                    0 <= j < k + 1 ==> w.take(k + 1)[j] == w[j]);
                assert(forall|j: int| 0 <= j < k ==> is_digit(#[trigger] w.take(k as int)[j]));
                assert(forall|j: int| 0 <= j < k ==> w.take(k as int)[j] == w[j]);
            }
            lemma_digits_val_bounds(w.take(k as int));
            assert(digits_val(w.take(k as int)) <= 9999);
        }
        v = v * 10 + (cu - 48);
        k = k + 1;
    }
    proof {
        assert(w.take(n as int) =~= w);
        lemma_digits_val_bounds(w);
    }
    if v > limit {
        return None;
    }
    assert(is_plain_number(w));
    Some(v)
}

/// Parses `a.b.c.d:port`; accepts exactly the addresses
/// [`spec_parse_address`] describes.
#[verifier::rlimit(100)]
pub fn parse_address(s: &str) -> (r: Option<Address>)
    ensures
        r == spec_parse_address(s@),
{
    let cs = chars_of(s);
    let n = cs.len();
    let ci = match find_from(&cs, 0, ':') {
        None => {
            proof {
                lemma_find_char_none(s@, ':');
            }
            return None;
        },
        Some(j) => j,
    };
    proof {
        lemma_find_char_unique(s@, ':', ci as int);
    }
    let ghost ip = s@.take(ci as int);
    let ghost port_txt = s@.skip(ci as int + 1);
    proof {
        assert(port_txt =~= cs@.subrange(ci as int + 1, n as int));
        assert(forall|k: int| 0 <= k < ci ==> ip[k] == s@[k]);
    }
    let port = match parse_numeral(&cs, ci + 1, n, 5, 65535) {
        None => {
            assert(parse_port_text(port_txt) == None::<u16>);
            return None;
        },
        Some(v) => {
            assert(parse_port_text(port_txt) == Some(v as u16));
            v as u16
        },
    };
    // First octet.
    let d1 = match find_from(&cs, 0, '.') {
        None => {
            proof {
                lemma_find_char_none(ip, '.');
            }
            return None;
        },
        Some(j) => {
            if j >= ci {
                proof {
                    lemma_find_char_none(ip, '.');
                }
                return None;
            }
            j
        },
    };
    proof {
        lemma_find_char_unique(ip, '.', d1 as int);
    }
    let o1 = match parse_numeral(&cs, 0, d1, 3, 255) {
        None => {
            assert(ip.take(d1 as int) =~= cs@.subrange(0, d1 as int));
            return None;
        },
        Some(v) => {
            assert(ip.take(d1 as int) =~= cs@.subrange(0, d1 as int));
            v as u8
        },
    };
    let ghost r1 = ip.skip(d1 as int + 1);
    proof {
        assert(r1 =~= s@.subrange(d1 as int + 1, ci as int));
    }
    // Second octet.
    let d2 = match find_from(&cs, d1 + 1, '.') {
        None => {
            proof {
                lemma_find_char_none(r1, '.');
            }
            return None;
        },
        Some(j) => {
            if j >= ci {
                proof {
                    lemma_find_char_none(r1, '.');
                }
                return None;
            }
            j
        },
    };
    proof {
        assert(r1[d2 - (d1 + 1)] == s@[d2 as int]);
        lemma_find_char_unique(r1, '.', d2 - (d1 + 1));
    }
    let o2 = match parse_numeral(&cs, d1 + 1, d2, 3, 255) {
        None => {
            assert(r1.take(d2 - (d1 + 1)) =~= cs@.subrange(d1 as int + 1, d2 as int));
            return None;
        },
        Some(v) => {
            assert(r1.take(d2 - (d1 + 1)) =~= cs@.subrange(d1 as int + 1, d2 as int));
            v as u8
        },
    };
    let ghost r2 = r1.skip(d2 - (d1 + 1) + 1);
    proof {
        assert(r2 =~= s@.subrange(d2 as int + 1, ci as int));
    }
    // Third octet and the fourth after the final dot.
    let d3 = match find_from(&cs, d2 + 1, '.') {
        None => {
            proof {
                lemma_find_char_none(r2, '.');
            }
            return None;
        },
        Some(j) => {
            if j >= ci {
                proof {
                    lemma_find_char_none(r2, '.');
                }
                return None;
            }
            j
        },
    };
    proof {
        assert(r2[d3 - (d2 + 1)] == s@[d3 as int]);
        lemma_find_char_unique(r2, '.', d3 - (d2 + 1));
    }
    let o3 = match parse_numeral(&cs, d2 + 1, d3, 3, 255) {
        None => {
            assert(r2.take(d3 - (d2 + 1)) =~= cs@.subrange(d2 as int + 1, d3 as int));
            return None;
        },
        Some(v) => {
            assert(r2.take(d3 - (d2 + 1)) =~= cs@.subrange(d2 as int + 1, d3 as int));
            v as u8
        },
    };
    let o4 = match parse_numeral(&cs, d3 + 1, ci, 3, 255) {
        None => {
            assert(r2.skip(d3 - (d2 + 1) + 1) =~= cs@.subrange(d3 as int + 1, ci as int));
            return None;
        },
        Some(v) => {
            assert(r2.skip(d3 - (d2 + 1) + 1) =~= cs@.subrange(d3 as int + 1, ci as int));
            v as u8
        },
    };
    Some(Address { a: o1, b: o2, c: o3, d: o4, port })
}

} // verus!
