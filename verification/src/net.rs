//! Textual IPv4 and CIDR model.
//!
//! The wire format of the cluster is plain text: dotted-quad addresses
//! (`192.168.1.10`) and CIDR subnets (`10.42.1.0/24`). This module gives
//! that grammar a mathematical definition (`dec_digits`, `ip_text`,
//! `cidr_text`, `subnet_text`) and provides verified formatting and
//! parsing, each exact: a parser returns `Some` if and only if its input
//! is the canonical text of some value.

use vstd::prelude::*;

verus! {

/// A decimal digit character.
pub open spec fn is_dec_digit(c: char) -> bool {
    48 <= c as int && c as int <= 57
}

/// Numeric value of a decimal digit character.
pub open spec fn digit_val(c: char) -> nat {
    (c as int - 48) as nat
}

/// The digit character for a value below ten.
pub open spec fn digit_char(d: nat) -> char {
    if d == 0 {
        '0'
    } else if d == 1 {
        '1'
    } else if d == 2 {
        '2'
    } else if d == 3 {
        '3'
    } else if d == 4 {
        '4'
    } else if d == 5 {
        '5'
    } else if d == 6 {
        '6'
    } else if d == 7 {
        '7'
    } else if d == 8 {
        '8'
    } else {
        '9'
    }
}

/// Canonical decimal text of a number: no leading zeros, one digit minimum.
pub open spec fn dec_digits(n: nat) -> Seq<char>
    decreases n,
{
    if n < 10 {
        seq![digit_char(n)]
    } else {
        dec_digits(n / 10).push(digit_char(n % 10))
    }
}

/// Numeric value of a digit string, most significant digit first.
pub open spec fn dec_value(s: Seq<char>) -> nat
    decreases s.len(),
{
    if s.len() == 0 {
        0
    } else {
        dec_value(s.drop_last()) * 10 + digit_val(s.last())
    }
}

pub proof fn lemma_digit_char_val(d: nat)
    requires
        d < 10,
    ensures
        is_dec_digit(digit_char(d)),
        digit_val(digit_char(d)) == d,
{
}

pub proof fn lemma_digit_char_of_val(c: char)
    requires
        is_dec_digit(c),
    ensures
        digit_char(digit_val(c)) == c,
{
    assert(c as int == digit_char(digit_val(c)) as int);
    assert(c == digit_char(digit_val(c)));
}

/// Every character of a canonical decimal text is a digit.
pub proof fn lemma_dec_digits_are_digits(n: nat)
    ensures
        dec_digits(n).len() >= 1,
        forall|i: int| 0 <= i < dec_digits(n).len() ==> is_dec_digit(#[trigger] dec_digits(n)[i]),
    decreases n,
{
    if n < 10 {
        lemma_digit_char_val(n);
    } else {
        lemma_dec_digits_are_digits(n / 10);
        lemma_digit_char_val(n % 10);
    }
}

/// A canonical decimal text never starts with a zero digit unless it is "0".
pub proof fn lemma_dec_digits_leading(n: nat)
    ensures
        n == 0 ==> dec_digits(n) == seq!['0'],
        n > 0 ==> dec_digits(n)[0] != '0',
    decreases n,
{
    if n < 10 {
        if n == 0 {
            assert(dec_digits(0) =~= seq!['0']);
        }
    } else {
        lemma_dec_digits_leading(n / 10);
        lemma_dec_digits_are_digits(n / 10);
        assert(dec_digits(n)[0] == dec_digits(n / 10)[0]);
    }
}

/// Reading back the canonical decimal text of `n` yields `n`.
pub proof fn lemma_dec_value_round(n: nat)
    ensures
        dec_value(dec_digits(n)) == n,
    decreases n,
{
    if n < 10 {
        lemma_digit_char_val(n);
        assert(dec_value(Seq::<char>::empty()) == 0);
        assert(dec_digits(n).drop_last() =~= Seq::<char>::empty());
    } else {
        lemma_dec_value_round(n / 10);
        lemma_digit_char_val(n % 10);
        assert(dec_digits(n).drop_last() =~= dec_digits(n / 10));
    }
}

/// Distinct numbers have distinct canonical decimal texts.
pub proof fn lemma_dec_digits_injective(m: nat, n: nat)
    requires
        m != n,
    ensures
        dec_digits(m) != dec_digits(n),
{
    lemma_dec_value_round(m);
    lemma_dec_value_round(n);
}

/// A nonempty digit string without a leading zero has a positive value.
pub proof fn lemma_dec_value_pos(s: Seq<char>)
    requires
        s.len() >= 1,
        forall|i: int| 0 <= i < s.len() ==> is_dec_digit(#[trigger] s[i]),
        s[0] != '0',
    ensures
        dec_value(s) >= 1,
    decreases s.len(),
{
    if s.len() == 1 {
        assert(digit_val(s[0]) >= 1);
    } else {
        lemma_dec_value_pos(s.drop_last());
    }
}

/// A nonempty digit string without a leading zero is the canonical text
/// of its own value.
pub proof fn lemma_dec_canonical(s: Seq<char>)
    requires
        s.len() >= 1,
        forall|i: int| 0 <= i < s.len() ==> is_dec_digit(#[trigger] s[i]),
        s.len() == 1 || s[0] != '0',
    ensures
        s == dec_digits(dec_value(s)),
    decreases s.len(),
{
    if s.len() == 1 {
        lemma_digit_char_of_val(s[0]);
        assert(dec_value(Seq::<char>::empty()) == 0);
        assert(s.drop_last() =~= Seq::<char>::empty());
        assert(dec_value(s) == digit_val(s[0]));
        assert(s =~= seq![digit_char(dec_value(s))]);
    } else {
        let s0 = s.drop_last();
        lemma_dec_canonical(s0);
        lemma_dec_value_pos(s0);
        let v = dec_value(s);
        let v0 = dec_value(s0);
        assert(v == v0 * 10 + digit_val(s.last()));
        assert(v0 * 10 >= 10);
        assert(digit_val(s.last()) < 10);
        assert(v / 10 == v0 && v % 10 == digit_val(s.last())) by {
            vstd::arithmetic::div_mod::lemma_fundamental_div_mod_converse(
                v as int,
                10,
                v0 as int,
                digit_val(s.last()) as int,
            );
        }
        lemma_digit_char_of_val(s.last());
        assert(s =~= dec_digits(v0).push(digit_char(v % 10)));
    }
}

/// Canonical decimal text of a byte has at most three digits.
pub proof fn lemma_dec_digits_len_u8(n: nat)
    requires
        n < 1000,
    ensures
        1 <= dec_digits(n).len() <= 3,
        n < 10 ==> dec_digits(n).len() == 1,
        10 <= n < 100 ==> dec_digits(n).len() == 2,
        100 <= n ==> dec_digits(n).len() == 3,
{
    if n < 10 {
    } else if n < 100 {
        assert(n / 10 < 10);
        assert(dec_digits(n / 10).len() == 1);
        assert(dec_digits(n).len() == 2);
    } else {
        let q = n / 10;
        assert(10 <= q < 100);
        assert(q / 10 < 10);
        assert(dec_digits(q / 10).len() == 1);
        assert(dec_digits(q).len() == 2);
        assert(dec_digits(n).len() == 3);
    }
}

// ------------------------------------------------------------------
// Address and subnet text
// ------------------------------------------------------------------

/// An IPv4 address as four plain octets.
#[derive(Clone, Copy, PartialEq, Eq, Structural, Debug)]
pub struct Ipv4 {
    pub a: u8,
    pub b: u8,
    pub c: u8,
    pub d: u8,
}

/// An IPv4 prefix: an address together with a prefix length.
#[derive(Clone, Copy, PartialEq, Eq, Structural, Debug)]
pub struct Cidr {
    pub addr: Ipv4,
    pub prefix_len: u8,
}

/// Canonical dotted-quad text of an address.
pub open spec fn ip_text(ip: Ipv4) -> Seq<char> {
    dec_digits(ip.a as nat) + seq!['.'] + dec_digits(ip.b as nat) + seq!['.'] + dec_digits(
        ip.c as nat,
    ) + seq!['.'] + dec_digits(ip.d as nat)
}

/// Canonical CIDR text of a prefix.
pub open spec fn cidr_text(c: Cidr) -> Seq<char> {
    ip_text(c.addr) + seq!['/'] + dec_digits(c.prefix_len as nat)
}

/// The i-th node subnet of the cluster: `10.42.{i}.0/24`.
pub open spec fn subnet_cidr(i: u8) -> Cidr {
    Cidr { addr: Ipv4 { a: 10, b: 42, c: i, d: 0 }, prefix_len: 24 }
}

/// Canonical text of the i-th node subnet.
pub open spec fn subnet_text(i: u8) -> Seq<char> {
    cidr_text(subnet_cidr(i))
}

/// Distinct subnet indices give distinct subnet texts.
pub proof fn lemma_subnet_text_injective(i: u8, j: u8)
    requires
        i != j,
    ensures
        subnet_text(i) != subnet_text(j),
{
    lemma_dec_digits_injective(i as nat, j as nat);
    lemma_dec_digits_len_u8(10);
    lemma_dec_digits_len_u8(42);
    lemma_dec_digits_len_u8(i as nat);
    lemma_dec_digits_len_u8(j as nat);
    if subnet_text(i) == subnet_text(j) {
        let pre = dec_digits(10) + seq!['.'] + dec_digits(42) + seq!['.'];
        let ti = dec_digits(i as nat);
        let tj = dec_digits(j as nat);
        let post_i = seq!['.'] + dec_digits(0) + seq!['/'] + dec_digits(24);
        assert(subnet_text(i) =~= pre + ti + post_i);
        assert(subnet_text(j) =~= pre + tj + post_i);
        lemma_dec_digits_are_digits(i as nat);
        lemma_dec_digits_are_digits(j as nat);
        if ti.len() == tj.len() {
            assert(ti =~= tj) by {
                assert(forall|k: int|
                    0 <= k < ti.len() ==> ti[k] == (pre + ti + post_i)[pre.len() + k]
                        && tj[k] == (pre + tj + post_i)[pre.len() + k]);
            }
        } else {
            // The character just after the shorter index text is '.' in one
            // subnet text and a digit in the other.
            let (shorter, longer) = if ti.len() < tj.len() {
                (ti, tj)
            } else {
                (tj, ti)
            };
            let k = pre.len() + shorter.len();
            assert((pre + shorter + post_i)[k as int] == '.');
            assert((pre + longer + post_i)[k as int] == longer[shorter.len() as int]);
            assert(is_dec_digit(longer[shorter.len() as int]));
        }
    }
}

// ------------------------------------------------------------------
// Formatting
// ------------------------------------------------------------------

/// Appends the digit character for `d`.
fn push_digit(s: &mut String, d: u8)
    requires
        d < 10,
    ensures
        final(s)@ == old(s)@ + seq![digit_char(d as nat)],
{
    match d {
        0 => {
            s.append("0");
            proof {
                reveal_strlit("0");
                assert(s@ =~= old(s)@ + seq![digit_char(d as nat)]);
            }
        },
        1 => {
            s.append("1");
            proof {
                reveal_strlit("1");
                assert(s@ =~= old(s)@ + seq![digit_char(d as nat)]);
            }
        },
        2 => {
            s.append("2");
            proof {
                reveal_strlit("2");
                assert(s@ =~= old(s)@ + seq![digit_char(d as nat)]);
            }
        },
        3 => {
            s.append("3");
            proof {
                reveal_strlit("3");
                assert(s@ =~= old(s)@ + seq![digit_char(d as nat)]);
            }
        },
        4 => {
            s.append("4");
            proof {
                reveal_strlit("4");
                assert(s@ =~= old(s)@ + seq![digit_char(d as nat)]);
            }
        },
        5 => {
            s.append("5");
            proof {
                reveal_strlit("5");
                assert(s@ =~= old(s)@ + seq![digit_char(d as nat)]);
            }
        },
        6 => {
            s.append("6");
            proof {
                reveal_strlit("6");
                assert(s@ =~= old(s)@ + seq![digit_char(d as nat)]);
            }
        },
        7 => {
            s.append("7");
            proof {
                reveal_strlit("7");
                assert(s@ =~= old(s)@ + seq![digit_char(d as nat)]);
            }
        },
        8 => {
            s.append("8");
            proof {
                reveal_strlit("8");
                assert(s@ =~= old(s)@ + seq![digit_char(d as nat)]);
            }
        },
        _ => {
            s.append("9");
            proof {
                reveal_strlit("9");
                assert(s@ =~= old(s)@ + seq![digit_char(d as nat)]);
            }
        },
    }
}

/// Appends the canonical decimal text of `n`.
fn push_dec_u8(s: &mut String, n: u8)
    ensures
        final(s)@ == old(s)@ + dec_digits(n as nat),
    decreases n,
{
    if n >= 10 {
        push_dec_u8(s, n / 10);
        push_digit(s, n % 10);
        proof {
            assert(s@ =~= old(s)@ + dec_digits(n as nat));
        }
    } else {
        push_digit(s, n);
    }
}

/// Canonical decimal text of a byte.
pub fn dec_u8_string(n: u8) -> (r: String)
    ensures
        r@ == dec_digits(n as nat),
{
    let mut s = String::new();
    push_dec_u8(&mut s, n);
    proof {
        assert(s@ =~= dec_digits(n as nat));
    }
    s
}

/// Canonical dotted-quad text of an address.
pub fn format_ip(ip: Ipv4) -> (r: String)
    ensures
        r@ == ip_text(ip),
{
    let mut s = String::new();
    push_dec_u8(&mut s, ip.a);
    s.append(".");
    push_dec_u8(&mut s, ip.b);
    s.append(".");
    push_dec_u8(&mut s, ip.c);
    s.append(".");
    push_dec_u8(&mut s, ip.d);
    proof {
        reveal_strlit(".");
        assert("."@ =~= seq!['.']);
        assert(s@ =~= ip_text(ip));
    }
    s
}

/// Canonical CIDR text of a prefix.
pub fn format_cidr(c: Cidr) -> (r: String)
    ensures
        r@ == cidr_text(c),
{
    let mut s = format_ip(c.addr);
    s.append("/");
    push_dec_u8(&mut s, c.prefix_len);
    proof {
        reveal_strlit("/");
        assert("/"@ =~= seq!['/']);
        assert(s@ =~= cidr_text(c));
    }
    s
}

/// Canonical text of the i-th node subnet, `10.42.{i}.0/24`.
pub fn format_subnet(i: u8) -> (r: String)
    ensures
        r@ == subnet_text(i),
{
    format_cidr(Cidr { addr: Ipv4 { a: 10, b: 42, c: i, d: 0 }, prefix_len: 24 })
}

// ------------------------------------------------------------------
// Parsing
// ------------------------------------------------------------------

/// Index just past the run of digit characters that starts at `i`.
pub open spec fn digit_run_end(s: Seq<char>, i: int) -> int
    decreases s.len() - i when 0 <= i <= s.len()
{
    if i < s.len() && is_dec_digit(s[i]) {
        digit_run_end(s, i + 1)
    } else {
        i
    }
}

pub proof fn lemma_digit_run_end_props(s: Seq<char>, i: int)
    requires
        0 <= i <= s.len(),
    ensures
        i <= digit_run_end(s, i) <= s.len(),
        forall|k: int| i <= k < digit_run_end(s, i) ==> is_dec_digit(#[trigger] s[k]),
        digit_run_end(s, i) == s.len() || !is_dec_digit(s[digit_run_end(s, i)]),
    decreases s.len() - i,
{
    if i < s.len() && is_dec_digit(s[i]) {
        lemma_digit_run_end_props(s, i + 1);
    }
}

/// The digit run is characterized by its endpoints: if everything from
/// `i` to `j` is a digit and `j` sits at the end or at a non-digit, the
/// run from `i` ends exactly at `j`.
pub proof fn lemma_digit_run_end_unique(s: Seq<char>, i: int, j: int)
    requires
        0 <= i <= j <= s.len(),
        forall|k: int| i <= k < j ==> is_dec_digit(#[trigger] s[k]),
        j == s.len() || !is_dec_digit(s[j]),
    ensures
        digit_run_end(s, i) == j,
    decreases j - i,
{
    if i < j {
        lemma_digit_run_end_unique(s, i + 1, j);
    }
}

/// Every character of a dotted-quad text is a digit or a dot.
pub proof fn lemma_ip_text_chars(ip: Ipv4)
    ensures
        forall|i: int|
            0 <= i < ip_text(ip).len() ==> is_dec_digit(#[trigger] ip_text(ip)[i]) || ip_text(
                ip,
            )[i] == '.',
{
    lemma_dec_digits_are_digits(ip.a as nat);
    lemma_dec_digits_are_digits(ip.b as nat);
    lemma_dec_digits_are_digits(ip.c as nat);
    lemma_dec_digits_are_digits(ip.d as nat);
}

/// Scans the digit run that starts at `start` and returns its value,
/// provided the run is the canonical decimal text of a byte.
fn scan_number(s: &str, start: usize) -> (r: Option<(u8, usize)>)
    requires
        start <= s@.len(),
    ensures
        ({
            let end = digit_run_end(s@, start as int);
            let run = s@.subrange(start as int, end);
            match r {
                Some(p) => p.0 as nat == dec_value(run) && run == dec_digits(p.0 as nat) && p.1
                    == end,
                None => forall|v: u8| run != dec_digits(v as nat),
            }
        }),
{
    let len = s.unicode_len();
    let ghost end = digit_run_end(s@, start as int);
    proof {
        lemma_digit_run_end_props(s@, start as int);
    }
    let mut j = start;
    let mut val: u32 = 0;
    loop
        invariant
            start <= j <= s@.len(),
            len == s@.len(),
            end == digit_run_end(s@, start as int),
            digit_run_end(s@, j as int) == end,
            forall|k: int| start <= k < j ==> is_dec_digit(#[trigger] s@[k]),
            val <= 256,
            dec_value(s@.subrange(start as int, j as int)) <= 255 ==> val == dec_value(
                s@.subrange(start as int, j as int),
            ),
            dec_value(s@.subrange(start as int, j as int)) > 255 ==> val == 256,
        ensures
            start <= j <= s@.len(),
            j as int == end,
            forall|k: int| start <= k < j ==> is_dec_digit(#[trigger] s@[k]),
            val <= 256,
            dec_value(s@.subrange(start as int, j as int)) <= 255 ==> val == dec_value(
                s@.subrange(start as int, j as int),
            ),
            dec_value(s@.subrange(start as int, j as int)) > 255 ==> val == 256,
        decreases s@.len() - j,
    {
        if j == len {
            proof {
                lemma_digit_run_end_unique(s@, j as int, j as int);
            }
            break ;
        }
        let c = s.get_char(j);
        let u = c as u32;
        if !(48 <= u && u <= 57) {
            proof {
                assert(!is_dec_digit(s@[j as int]));
                lemma_digit_run_end_unique(s@, j as int, j as int);
            }
            break ;
        }
        let d = u - 48;
        let ghost run_old = s@.subrange(start as int, j as int);
        let ghost run_new = s@.subrange(start as int, j as int + 1);
        proof {
            assert(is_dec_digit(s@[j as int]));
            assert(digit_run_end(s@, j as int) == digit_run_end(s@, j as int + 1));
            lemma_digit_run_end_props(s@, j as int + 1);
            assert(run_new.drop_last() =~= run_old);
            assert(run_new.last() == s@[j as int]);
            assert(dec_value(run_new) == dec_value(run_old) * 10 + digit_val(s@[j as int]));
        }
        val = val * 10 + d;
        if val > 255 {
            val = 256;
        }
        j = j + 1;
    }
    let ghost run = s@.subrange(start as int, end);
    if j == start {
        proof {
            assert(run.len() == 0);
            assert forall|v: u8| run != dec_digits(v as nat) by {
                lemma_dec_digits_are_digits(v as nat);
            }
        }
        return None;
    }
    let first = s.get_char(start);
    if first as u32 == 48 && j - start > 1 {
        proof {
            assert(run[0] == '0');
            assert(run.len() > 1);
            assert forall|v: u8| run != dec_digits(v as nat) by {
                lemma_dec_digits_leading(v as nat);
                if v == 0 {
                    assert(dec_digits(v as nat).len() == 1);
                } else {
                    assert(dec_digits(v as nat)[0] != '0');
                }
            }
        }
        return None;
    }
    if val > 255 {
        proof {
            assert(dec_value(run) > 255);
            assert forall|v: u8| run != dec_digits(v as nat) by {
                lemma_dec_value_round(v as nat);
            }
        }
        return None;
    }
    proof {
        assert(val == dec_value(run));
        assert(run[0] == s@[start as int]);
        lemma_dec_canonical(run);
    }
    Some((val as u8, j))
}

/// Finds the first slash in `s`.
fn find_slash(s: &str) -> (r: Option<usize>)
    ensures
        match r {
            Some(k) => k < s@.len() && s@[k as int] == '/' && forall|i: int|
                0 <= i < k ==> s@[i] != '/',
            None => forall|i: int| 0 <= i < s@.len() ==> s@[i] != '/',
        },
{
    let len = s.unicode_len();
    let mut k: usize = 0;
    while k < len
        invariant
            k <= s@.len(),
            len == s@.len(),
            forall|i: int| 0 <= i < k ==> s@[i] != '/',
        decreases s@.len() - k,
    {
        let c = s.get_char(k);
        if c as u32 == 47 {
            proof {
                assert(c == '/');
            }
            return Some(k);
        }
        proof {
            assert(s@[k as int] != '/');
        }
        k = k + 1;
    }
    None
}

/// Structure of a dotted-quad text: where its runs and dots sit.
proof fn lemma_ip_text_structure(s: Seq<char>, ip: Ipv4)
    requires
        s == ip_text(ip),
    ensures
        ({
            let la = dec_digits(ip.a as nat).len() as int;
            let lb = dec_digits(ip.b as nat).len() as int;
            let lc = dec_digits(ip.c as nat).len() as int;
            let ld = dec_digits(ip.d as nat).len() as int;
            &&& s.len() == la + 1 + lb + 1 + lc + 1 + ld
            &&& digit_run_end(s, 0) == la
            &&& s.subrange(0, la) == dec_digits(ip.a as nat)
            &&& s[la] == '.'
            &&& digit_run_end(s, la + 1) == la + 1 + lb
            &&& s.subrange(la + 1, la + 1 + lb) == dec_digits(ip.b as nat)
            &&& s[la + 1 + lb] == '.'
            &&& digit_run_end(s, la + 1 + lb + 1) == la + 1 + lb + 1 + lc
            &&& s.subrange(la + 1 + lb + 1, la + 1 + lb + 1 + lc) == dec_digits(ip.c as nat)
            &&& s[la + 1 + lb + 1 + lc] == '.'
            &&& digit_run_end(s, la + 1 + lb + 1 + lc + 1) == s.len()
            &&& s.subrange(la + 1 + lb + 1 + lc + 1, s.len() as int) == dec_digits(ip.d as nat)
        }),
{
    let ta = dec_digits(ip.a as nat);
    let tb = dec_digits(ip.b as nat);
    let tc = dec_digits(ip.c as nat);
    let td = dec_digits(ip.d as nat);
    let la = ta.len() as int;
    let lb = tb.len() as int;
    let lc = tc.len() as int;
    let ld = td.len() as int;
    lemma_dec_digits_are_digits(ip.a as nat);
    lemma_dec_digits_are_digits(ip.b as nat);
    lemma_dec_digits_are_digits(ip.c as nat);
    lemma_dec_digits_are_digits(ip.d as nat);
    assert(s.subrange(0, la) =~= ta);
    assert(s.subrange(la + 1, la + 1 + lb) =~= tb);
    assert(s.subrange(la + 1 + lb + 1, la + 1 + lb + 1 + lc) =~= tc);
    assert(s.subrange(la + 1 + lb + 1 + lc + 1, s.len() as int) =~= td);
    lemma_digit_run_end_unique(s, 0, la);
    lemma_digit_run_end_unique(s, la + 1, la + 1 + lb);
    lemma_digit_run_end_unique(s, la + 1 + lb + 1, la + 1 + lb + 1 + lc);
    lemma_digit_run_end_unique(s, la + 1 + lb + 1 + lc + 1, s.len() as int);
}

/// The address a text denotes, if it is the canonical dotted-quad
/// text of an address.
pub open spec fn ip_of_text(s: Seq<char>) -> Option<Ipv4> {
    if exists|ip: Ipv4| s == ip_text(ip) {
        Some(choose|ip: Ipv4| s == ip_text(ip))
    } else {
        None
    }
}

pub proof fn lemma_ip_of_text(s: Seq<char>, ip: Ipv4)
    requires
        s == ip_text(ip),
    ensures
        ip_of_text(s) == Some(ip),
{
    let ip2 = choose|ip2: Ipv4| s == ip_text(ip2);
    if ip2 != ip {
        lemma_dec_digits_injective_ip(ip, ip2);
    }
}

/// Parses a dotted-quad IPv4 address. Returns `Some` exactly on the
/// canonical text of an address.
pub fn parse_ip(s: &str) -> (r: Option<Ipv4>)
    ensures
        r == ip_of_text(s@),
        match r {
            Some(ip) => s@ == ip_text(ip),
            None => forall|ip: Ipv4| s@ != ip_text(ip),
        },
{
    let len = s.unicode_len();
    let r1 = scan_number(s, 0);
    let (a, e1) = match r1 {
        Some(p) => p,
        None => {
            proof {
                assert forall|ip: Ipv4| s@ != ip_text(ip) by {
                    if s@ == ip_text(ip) {
                        lemma_ip_text_structure(s@, ip);
                    }
                }
            }
            return None;
        },
    };
    if e1 >= len || !(s.get_char(e1) as u32 == 46) {
        proof {
            assert forall|ip: Ipv4| s@ != ip_text(ip) by {
                if s@ == ip_text(ip) {
                    lemma_ip_text_structure(s@, ip);
                    lemma_dec_digits_injective_applied(a, ip.a, s@, 0);
                }
            }
        }
        return None;
    }
    let r2 = scan_number(s, e1 + 1);
    let (b, e2) = match r2 {
        Some(p) => p,
        None => {
            proof {
                assert forall|ip: Ipv4| s@ != ip_text(ip) by {
                    if s@ == ip_text(ip) {
                        lemma_ip_text_structure(s@, ip);
                        lemma_dec_digits_injective_applied(a, ip.a, s@, 0);
                    }
                }
            }
            return None;
        },
    };
    if e2 >= len || !(s.get_char(e2) as u32 == 46) {
        proof {
            assert forall|ip: Ipv4| s@ != ip_text(ip) by {
                if s@ == ip_text(ip) {
                    lemma_ip_text_structure(s@, ip);
                    lemma_dec_digits_injective_applied(a, ip.a, s@, 0);
                    lemma_dec_digits_injective_applied(
                        b,
                        ip.b,
                        s@,
                        dec_digits(ip.a as nat).len() as int + 1,
                    );
                }
            }
        }
        return None;
    }
    let r3 = scan_number(s, e2 + 1);
    let (c, e3) = match r3 {
        Some(p) => p,
        None => {
            proof {
                assert forall|ip: Ipv4| s@ != ip_text(ip) by {
                    if s@ == ip_text(ip) {
                        lemma_ip_text_structure(s@, ip);
                        lemma_dec_digits_injective_applied(a, ip.a, s@, 0);
                        lemma_dec_digits_injective_applied(
                            b,
                            ip.b,
                            s@,
                            dec_digits(ip.a as nat).len() as int + 1,
                        );
                    }
                }
            }
            return None;
        },
    };
    if e3 >= len || !(s.get_char(e3) as u32 == 46) {
        proof {
            assert forall|ip: Ipv4| s@ != ip_text(ip) by {
                if s@ == ip_text(ip) {
                    lemma_ip_text_structure(s@, ip);
                    lemma_dec_digits_injective_applied(a, ip.a, s@, 0);
                    lemma_dec_digits_injective_applied(
                        b,
                        ip.b,
                        s@,
                        dec_digits(ip.a as nat).len() as int + 1,
                    );
                    lemma_dec_digits_injective_applied(
                        c,
                        ip.c,
                        s@,
                        dec_digits(ip.a as nat).len() as int + 1 + dec_digits(
                            ip.b as nat,
                        ).len() as int + 1,
                    );
                }
            }
        }
        return None;
    }
    let r4 = scan_number(s, e3 + 1);
    let (d, e4) = match r4 {
        Some(p) => p,
        None => {
            proof {
                assert forall|ip: Ipv4| s@ != ip_text(ip) by {
                    if s@ == ip_text(ip) {
                        lemma_ip_text_structure(s@, ip);
                        lemma_dec_digits_injective_applied(a, ip.a, s@, 0);
                        lemma_dec_digits_injective_applied(
                            b,
                            ip.b,
                            s@,
                            dec_digits(ip.a as nat).len() as int + 1,
                        );
                        lemma_dec_digits_injective_applied(
                            c,
                            ip.c,
                            s@,
                            dec_digits(ip.a as nat).len() as int + 1 + dec_digits(
                                ip.b as nat,
                            ).len() as int + 1,
                        );
                    }
                }
            }
            return None;
        },
    };
    if e4 != len {
        proof {
            assert forall|ip: Ipv4| s@ != ip_text(ip) by {
                if s@ == ip_text(ip) {
                    lemma_ip_text_structure(s@, ip);
                    lemma_dec_digits_injective_applied(a, ip.a, s@, 0);
                    lemma_dec_digits_injective_applied(
                        b,
                        ip.b,
                        s@,
                        dec_digits(ip.a as nat).len() as int + 1,
                    );
                    lemma_dec_digits_injective_applied(
                        c,
                        ip.c,
                        s@,
                        dec_digits(ip.a as nat).len() as int + 1 + dec_digits(
                            ip.b as nat,
                        ).len() as int + 1,
                    );
                }
            }
        }
        return None;
    }
    let ip = Ipv4 { a, b, c, d };
    proof {
        assert(s@[e1 as int] == '.');
        assert(s@[e2 as int] == '.');
        assert(s@[e3 as int] == '.');
        lemma_digit_run_end_props(s@, 0);
        lemma_digit_run_end_props(s@, e1 as int + 1);
        lemma_digit_run_end_props(s@, e2 as int + 1);
        lemma_digit_run_end_props(s@, e3 as int + 1);
        lemma_dec_digits_are_digits(a as nat);
        lemma_dec_digits_are_digits(b as nat);
        lemma_dec_digits_are_digits(c as nat);
        lemma_dec_digits_are_digits(d as nat);
        let t = s@;
        assert(t =~= t.subrange(0, e1 as int) + seq!['.'] + t.subrange(e1 as int + 1, e2 as int)
            + seq!['.'] + t.subrange(e2 as int + 1, e3 as int) + seq!['.'] + t.subrange(
            e3 as int + 1,
            e4 as int,
        ));
        assert(s@ == ip_text(ip));
        lemma_ip_of_text(s@, ip);
    }
    Some(ip)
}

/// Two canonical runs starting at the same place in the same string
/// denote the same value.
proof fn lemma_dec_digits_injective_applied(v: u8, w: u8, s: Seq<char>, start: int)
    requires
        0 <= start <= s.len(),
        s.subrange(start, digit_run_end(s, start)) == dec_digits(v as nat),
        s.subrange(start, digit_run_end(s, start)) == dec_digits(w as nat),
    ensures
        v == w,
{
    lemma_dec_value_round(v as nat);
    lemma_dec_value_round(w as nat);
}

/// The prefix a text denotes, if it is the canonical CIDR text of a
/// prefix whose length is at most 32.
pub open spec fn cidr_of_text(s: Seq<char>) -> Option<Cidr> {
    if exists|c: Cidr| c.prefix_len <= 32 && s == cidr_text(c) {
        Some(choose|c: Cidr| c.prefix_len <= 32 && s == cidr_text(c))
    } else {
        None
    }
}

pub proof fn lemma_cidr_of_text(s: Seq<char>, c: Cidr)
    requires
        s == cidr_text(c),
        c.prefix_len <= 32,
    ensures
        cidr_of_text(s) == Some(c),
{
    let c2 = choose|c2: Cidr| c2.prefix_len <= 32 && s == cidr_text(c2);
    if c2 != c {
        lemma_cidr_text_injective(c, c2);
    }
}

/// Parses CIDR text. Returns `Some` exactly on the canonical text of a
/// prefix whose length is at most 32.
pub fn parse_cidr(s: &str) -> (r: Option<Cidr>)
    ensures
        r == cidr_of_text(s@),
        match r {
            Some(c) => s@ == cidr_text(c) && c.prefix_len <= 32,
            None => forall|c: Cidr| c.prefix_len <= 32 ==> s@ != cidr_text(c),
        },
{
    let len = s.unicode_len();
    let slash = match find_slash(s) {
        Some(k) => k,
        None => {
            proof {
                assert forall|c: Cidr| c.prefix_len <= 32 implies s@ != cidr_text(c) by {
                    if s@ == cidr_text(c) {
                        assert(s@[ip_text(c.addr).len() as int] == '/');
                    }
                }
            }
            return None;
        },
    };
    let left = s.substring_char(0, slash);
    let ip = match parse_ip(left) {
        Some(ip) => ip,
        None => {
            proof {
                assert forall|c: Cidr| c.prefix_len <= 32 implies s@ != cidr_text(c) by {
                    if s@ == cidr_text(c) {
                        lemma_cidr_slash_position(s@, c, slash as int);
                        assert(left@ =~= ip_text(c.addr));
                    }
                }
            }
            return None;
        },
    };
    let rp = scan_number(s, slash + 1);
    let (p, e) = match rp {
        Some(q) => q,
        None => {
            proof {
                assert forall|c: Cidr| c.prefix_len <= 32 implies s@ != cidr_text(c) by {
                    if s@ == cidr_text(c) {
                        lemma_cidr_slash_position(s@, c, slash as int);
                    }
                }
            }
            return None;
        },
    };
    if e != len || p > 32 {
        proof {
            assert forall|c: Cidr| c.prefix_len <= 32 implies s@ != cidr_text(c) by {
                if s@ == cidr_text(c) {
                    lemma_cidr_slash_position(s@, c, slash as int);
                    lemma_dec_digits_injective_applied(p, c.prefix_len, s@, slash as int + 1);
                }
            }
        }
        return None;
    }
    let cidr = Cidr { addr: ip, prefix_len: p };
    proof {
        assert(s@[slash as int] == '/');
        assert(left@ =~= s@.subrange(0, slash as int));
        let t = s@;
        assert(t =~= t.subrange(0, slash as int) + seq!['/'] + t.subrange(
            slash as int + 1,
            e as int,
        ));
        assert(s@ == cidr_text(cidr));
        lemma_cidr_of_text(s@, cidr);
    }
    Some(cidr)
}

/// In the canonical CIDR text the first slash separates the address
/// text from the prefix-length text.
proof fn lemma_cidr_slash_position(s: Seq<char>, c: Cidr, slash: int)
    requires
        s == cidr_text(c),
        0 <= slash < s.len(),
        s[slash] == '/',
        forall|i: int| 0 <= i < slash ==> s[i] != '/',
    ensures
        slash == ip_text(c.addr).len(),
        s.subrange(0, slash) == ip_text(c.addr),
        digit_run_end(s, slash + 1) == s.len(),
        s.subrange(slash + 1, s.len() as int) == dec_digits(c.prefix_len as nat),
{
    let li = ip_text(c.addr).len() as int;
    lemma_ip_text_chars(c.addr);
    if slash < li {
        assert(s[slash] == ip_text(c.addr)[slash]);
        assert(false);
    }
    if slash > li {
        assert(s[li] == '/');
        assert(false);
    }
    assert(s.subrange(0, slash) =~= ip_text(c.addr));
    assert(s.subrange(slash + 1, s.len() as int) =~= dec_digits(c.prefix_len as nat));
    lemma_dec_digits_are_digits(c.prefix_len as nat);
    lemma_digit_run_end_unique(s, slash + 1, s.len() as int);
}

/// The subnet index a text denotes, if it is the canonical text of a
/// node subnet.
pub open spec fn subnet_id_of(s: Seq<char>) -> Option<u8> {
    if exists|i: u8| s == subnet_text(i) {
        Some(choose|i: u8| s == subnet_text(i))
    } else {
        None
    }
}

pub proof fn lemma_subnet_id_of(s: Seq<char>, i: u8)
    requires
        s == subnet_text(i),
    ensures
        subnet_id_of(s) == Some(i),
{
    let j = choose|j: u8| s == subnet_text(j);
    if j != i {
        lemma_subnet_text_injective(i, j);
    }
}

/// Parses the text of a node subnet, `10.42.{i}.0/24`, to its index.
pub fn parse_subnet_id(s: &str) -> (r: Option<u8>)
    ensures
        r == subnet_id_of(s@),
        match r {
            Some(i) => s@ == subnet_text(i),
            None => forall|i: u8| s@ != subnet_text(i),
        },
{
    match parse_cidr(s) {
        Some(c) => {
            if c.addr.a == 10 && c.addr.b == 42 && c.addr.d == 0 && c.prefix_len == 24 {
                proof {
                    lemma_subnet_id_of(s@, c.addr.c);
                }
                Some(c.addr.c)
            } else {
                proof {
                    assert forall|i: u8| s@ != subnet_text(i) by {
                        if s@ == subnet_text(i) {
                            lemma_cidr_text_injective(c, subnet_cidr(i));
                        }
                    }
                }
                None
            }
        },
        None => None,
    }
}

/// Distinct prefixes have distinct CIDR texts.
pub proof fn lemma_cidr_text_injective(c1: Cidr, c2: Cidr)
    requires
        cidr_text(c1) == cidr_text(c2),
    ensures
        c1 == c2,
{
    let s = cidr_text(c1);
    let l1 = ip_text(c1.addr).len() as int;
    let l2 = ip_text(c2.addr).len() as int;
    lemma_ip_text_chars(c1.addr);
    lemma_ip_text_chars(c2.addr);
    assert(s[l1] == '/');
    assert(s[l2] == '/');
    if l1 < l2 {
        assert(ip_text(c2.addr)[l1] == '/');
        assert(false);
    }
    if l2 < l1 {
        assert(ip_text(c1.addr)[l2] == '/');
        assert(false);
    }
    assert forall|k: int| 0 <= k < l1 implies ip_text(c1.addr)[k] == ip_text(c2.addr)[k] by {
        assert(s[k] == (ip_text(c1.addr) + seq!['/'] + dec_digits(c1.prefix_len as nat))[k]);
        assert(cidr_text(c2) == ip_text(c2.addr) + seq!['/'] + dec_digits(c2.prefix_len as nat));
        assert(s[k] == (ip_text(c2.addr) + seq!['/'] + dec_digits(c2.prefix_len as nat))[k]);
    }
    assert(ip_text(c1.addr) =~= ip_text(c2.addr));
    let lp = s.len() - l1 - 1;
    assert forall|k: int|
        0 <= k < lp implies dec_digits(c1.prefix_len as nat)[k] == dec_digits(
        c2.prefix_len as nat,
    )[k] by {
        assert(s[l1 + 1 + k] == (ip_text(c1.addr) + seq!['/'] + dec_digits(
            c1.prefix_len as nat,
        ))[l1 + 1 + k]);
        assert(cidr_text(c2) == ip_text(c2.addr) + seq!['/'] + dec_digits(c2.prefix_len as nat));
        assert(s[l1 + 1 + k] == (ip_text(c2.addr) + seq!['/'] + dec_digits(
            c2.prefix_len as nat,
        ))[l1 + 1 + k]);
    }
    assert(dec_digits(c1.prefix_len as nat) =~= dec_digits(c2.prefix_len as nat));
    lemma_dec_digits_injective_ip(c1.addr, c2.addr);
    lemma_dec_value_round(c1.prefix_len as nat);
    lemma_dec_value_round(c2.prefix_len as nat);
}

/// Distinct addresses have distinct dotted-quad texts.
pub proof fn lemma_dec_digits_injective_ip(x: Ipv4, y: Ipv4)
    requires
        ip_text(x) == ip_text(y),
    ensures
        x == y,
{
    let s = ip_text(x);
    lemma_ip_text_structure(s, x);
    lemma_ip_text_structure(s, y);
    lemma_dec_digits_injective_applied(x.a, y.a, s, 0);
    let la = dec_digits(x.a as nat).len() as int;
    lemma_dec_digits_injective_applied(x.b, y.b, s, la + 1);
    let lb = dec_digits(x.b as nat).len() as int;
    lemma_dec_digits_injective_applied(x.c, y.c, s, la + 1 + lb + 1);
    let lc = dec_digits(x.c as nat).len() as int;
    lemma_dec_digits_injective_applied(x.d, y.d, s, la + 1 + lb + 1 + lc + 1);
}

} // verus!
