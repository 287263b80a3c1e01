//! Distress packets: recursively nested lists of integers, two per pair,
//! pairs separated by blank lines. Two integers compare numerically; two
//! lists compare element by element with the shorter winning a tie; an
//! integer against a list is wrapped as a singleton list. Part one sums the
//! 1-based indices of pairs already in order. Part two gives the product of
//! the 1-based positions the dividers `[[2]]` and `[[6]]` would take in the
//! sorted list of all packets plus both dividers.
use crate::text::{
    dec_str, dec_val, find_byte, is_digit, lemma_lines_count, lines_of, parse_dec, split_lines,
    sub_vec, u128_string,
};
use vstd::prelude::*;
use vstd::string::StringSliceAdditionalSpecFns;

verus! {

pub struct Day13;

/// A packet: a nested list of integers.
#[derive(Debug, PartialEq, Eq)]
pub enum Packet {
    List(Vec<Packet>),
    Value(u64),
}

/// The mathematical model of a packet.
pub enum Pkt {
    List(Seq<Pkt>),
    Value(u64),
}

/// The model of one packet.
pub open spec fn pkt_view(p: &Packet) -> Pkt
    decreases p,
{
    match p {
        Packet::Value(v) => Pkt::Value(*v),
        Packet::List(l) => Pkt::List(pkts_view(l@)),
    }
}

/// The models of a sequence of packets.
pub open spec fn pkts_view(s: Seq<Packet>) -> Seq<Pkt>
    decreases s,
{
    if s.len() == 0 {
        Seq::empty()
    } else {
        pkts_view(s.drop_last()).push(pkt_view(&s.last()))
    }
}

pub proof fn lemma_pkts_view_index(s: Seq<Packet>, i: int)
    requires
        0 <= i < s.len(),
    ensures
        pkts_view(s).len() == s.len(),
        pkts_view(s)[i] == pkt_view(&s[i]),
    decreases s,
{
    lemma_pkts_view_len(s);
    if i < s.len() - 1 {
        lemma_pkts_view_index(s.drop_last(), i);
    }
}

pub proof fn lemma_pkts_view_len(s: Seq<Packet>)
    ensures
        pkts_view(s).len() == s.len(),
    decreases s,
{
    if s.len() > 0 {
        lemma_pkts_view_len(s.drop_last());
    }
}

/// The size of a packet model, for termination measures.
pub open spec fn gpsize(p: Pkt) -> nat
    decreases p,
{
    match p {
        Pkt::Value(_) => 1,
        Pkt::List(l) => 1 + gssize(l),
    }
}

pub open spec fn gssize(s: Seq<Pkt>) -> nat
    decreases s,
{
    if s.len() == 0 {
        0
    } else {
        gpsize(s[0]) + gssize(s.drop_first())
    }
}

pub proof fn lemma_gpsize_pos(p: Pkt)
    ensures
        gpsize(p) >= 1,
{
    match p {
        Pkt::Value(_) => {},
        Pkt::List(_) => {},
    }
}

pub proof fn lemma_gssize_elem(s: Seq<Pkt>, i: int)
    requires
        0 <= i < s.len(),
    ensures
        gpsize(s[i]) <= gssize(s),
    decreases s.len(),
{
    if i == 0 {
    } else {
        lemma_gssize_elem(s.drop_first(), i - 1);
        assert(s.drop_first()[i - 1] == s[i]);
    }
}

pub proof fn lemma_gssize_skip(s: Seq<Pkt>, i: int)
    requires
        0 <= i <= s.len(),
    ensures
        gssize(s.skip(i)) <= gssize(s),
    decreases i,
{
    if i == 0 {
        assert(s.skip(0) =~= s);
    } else {
        lemma_gssize_skip(s.drop_first(), i - 1);
        assert(s.drop_first().skip(i - 1) =~= s.skip(i));
        lemma_gpsize_pos(s[0]);
    }
}

/// A packet as a list: a list is itself, an integer a singleton.
pub open spec fn as_list(p: Pkt) -> Seq<Pkt> {
    match p {
        Pkt::List(l) => l,
        Pkt::Value(_) => seq![p],
    }
}

/// The packet order: -1 when `a` comes first, 1 when `b` does, 0 for a tie.
/// Two integers compare numerically; anything else compares as lists.
pub open spec fn cmp_p(a: Pkt, b: Pkt) -> int
    decreases gpsize(a) + gpsize(b), 0int,
    when true
    via cmp_p_dec
{
    match (a, b) {
        (Pkt::Value(u), Pkt::Value(v)) => if u < v {
            -1
        } else if u > v {
            1
        } else {
            0
        },
        _ => cmp_s(as_list(a), as_list(b)),
    }
}

/// Lexicographic order on packet lists: the first differing element decides;
/// on a common prefix the shorter list comes first.
pub open spec fn cmp_s(x: Seq<Pkt>, y: Seq<Pkt>) -> int
    decreases gssize(x) + gssize(y), 1int,
    when true
    via cmp_s_dec
{
    if x.len() == 0 && y.len() == 0 {
        0
    } else if x.len() == 0 {
        -1
    } else if y.len() == 0 {
        1
    } else {
        let c = cmp_p(x[0], y[0]);
        if c != 0 {
            c
        } else {
            cmp_s(x.drop_first(), y.drop_first())
        }
    }
}

#[via_fn]
proof fn cmp_p_dec(a: Pkt, b: Pkt) {
    match (a, b) {
        (Pkt::Value(_), Pkt::Value(_)) => {},
        _ => {
            lemma_as_list_size(a);
            lemma_as_list_size(b);
            assert(gpsize(a) + gpsize(b) > gssize(as_list(a)) + gssize(as_list(b))) by {
                if !(a is Value && b is Value) {
                    match a {
                        Pkt::List(_) => {},
                        Pkt::Value(_) => {},
                    }
                }
            }
        },
    }
}

#[via_fn]
proof fn cmp_s_dec(x: Seq<Pkt>, y: Seq<Pkt>) {
    if x.len() > 0 && y.len() > 0 {
        lemma_gssize_elem(x, 0);
        lemma_gssize_elem(y, 0);
        lemma_gpsize_pos(x[0]);
        lemma_gpsize_pos(y[0]);
    }
}

/// `as_list` keeps the size, up to the wrapping list node.
proof fn lemma_as_list_size(p: Pkt)
    ensures
        gssize(as_list(p)) < gpsize(p) + 1,
        p is List ==> gssize(as_list(p)) < gpsize(p),
{
    match p {
        Pkt::List(_) => {},
        Pkt::Value(_) => {
            assert(as_list(p).drop_first() =~= Seq::<Pkt>::empty());
            assert(gssize(as_list(p)) == gpsize(p) + gssize(Seq::<Pkt>::empty()));
        },
    }
}

/// Comparing any two packets equals comparing them as lists.
pub proof fn lemma_cmp_p_as_lists(a: Pkt, b: Pkt)
    ensures
        cmp_p(a, b) == cmp_s(as_list(a), as_list(b)),
{
    match (a, b) {
        (Pkt::Value(u), Pkt::Value(v)) => {
            let x = as_list(a);
            let y = as_list(b);
            assert(x == seq![a] && y == seq![b]);
            assert(x[0] == a && y[0] == b);
            assert(x.len() == 1 && y.len() == 1);
            if cmp_p(a, b) == 0 {
                assert(x.drop_first() =~= Seq::<Pkt>::empty());
                assert(y.drop_first() =~= Seq::<Pkt>::empty());
                assert(cmp_s(Seq::<Pkt>::empty(), Seq::<Pkt>::empty()) == 0);
                assert(cmp_s(x, y) == cmp_s(x.drop_first(), y.drop_first()));
            } else {
                assert(cmp_s(x, y) == cmp_p(a, b));
            }
        },
        _ => {},
    }
}

/// Antisymmetry of the packet order: swapping the sides flips the sign.
pub proof fn lemma_cmp_antisym(a: Pkt, b: Pkt)
    ensures
        cmp_p(a, b) == -cmp_p(b, a),
    decreases gpsize(a) + gpsize(b), 0int,
{
    match (a, b) {
        (Pkt::Value(_), Pkt::Value(_)) => {},
        _ => {
            lemma_cmp_p_as_lists(a, b);
            lemma_cmp_p_as_lists(b, a);
            lemma_as_list_size(a);
            lemma_as_list_size(b);
            assert(gssize(as_list(a)) + gssize(as_list(b)) < gpsize(a) + gpsize(b)) by {
                match a {
                    Pkt::List(_) => {},
                    Pkt::Value(_) => {},
                }
            }
            lemma_cmp_s_antisym(as_list(a), as_list(b));
        },
    }
}

/// Antisymmetry of the list order.
pub proof fn lemma_cmp_s_antisym(x: Seq<Pkt>, y: Seq<Pkt>)
    ensures
        cmp_s(x, y) == -cmp_s(y, x),
    decreases gssize(x) + gssize(y), 1int,
{
    if x.len() > 0 && y.len() > 0 {
        lemma_gssize_elem(x, 0);
        lemma_gssize_elem(y, 0);
        lemma_cmp_antisym(x[0], y[0]);
        if cmp_p(x[0], y[0]) == 0 {
            lemma_gpsize_pos(x[0]);
            lemma_gpsize_pos(y[0]);
            lemma_cmp_s_antisym(x.drop_first(), y.drop_first());
        }
    }
}

/// Transitivity of the packet order, for ties and strict steps alike.
pub proof fn lemma_cmp_trans(a: Pkt, b: Pkt, c: Pkt)
    ensures
        cmp_p(a, b) <= 0 && cmp_p(b, c) <= 0 ==> cmp_p(a, c) <= 0,
        cmp_p(a, b) <= 0 && cmp_p(b, c) <= 0 && (cmp_p(a, b) < 0 || cmp_p(b, c) < 0) ==> cmp_p(
            a,
            c,
        ) < 0,
        cmp_p(a, b) == 0 && cmp_p(b, c) == 0 ==> cmp_p(a, c) == 0,
    decreases gpsize(a) + gpsize(b) + gpsize(c), 0int,
{
    match (a, b, c) {
        (Pkt::Value(_), Pkt::Value(_), Pkt::Value(_)) => {},
        _ => {
            lemma_cmp_p_as_lists(a, b);
            lemma_cmp_p_as_lists(b, c);
            lemma_cmp_p_as_lists(a, c);
            lemma_as_list_size(a);
            lemma_as_list_size(b);
            lemma_as_list_size(c);
            assert(gssize(as_list(a)) + gssize(as_list(b)) + gssize(as_list(c)) < gpsize(a)
                + gpsize(b) + gpsize(c)) by {
                match a {
                    Pkt::List(_) => {},
                    Pkt::Value(_) => {
                        match b {
                            Pkt::List(_) => {},
                            Pkt::Value(_) => {},
                        }
                    },
                }
            }
            lemma_cmp_s_trans(as_list(a), as_list(b), as_list(c));
        },
    }
}

/// Transitivity of the list order.
pub proof fn lemma_cmp_s_trans(x: Seq<Pkt>, y: Seq<Pkt>, z: Seq<Pkt>)
    ensures
        cmp_s(x, y) <= 0 && cmp_s(y, z) <= 0 ==> cmp_s(x, z) <= 0,
        cmp_s(x, y) <= 0 && cmp_s(y, z) <= 0 && (cmp_s(x, y) < 0 || cmp_s(y, z) < 0) ==> cmp_s(
            x,
            z,
        ) < 0,
        cmp_s(x, y) == 0 && cmp_s(y, z) == 0 ==> cmp_s(x, z) == 0,
    decreases gssize(x) + gssize(y) + gssize(z), 1int,
{
    if x.len() > 0 && y.len() > 0 && z.len() > 0 {
        lemma_gssize_elem(x, 0);
        lemma_gssize_elem(y, 0);
        lemma_gssize_elem(z, 0);
        lemma_gpsize_pos(x[0]);
        lemma_gpsize_pos(y[0]);
        lemma_gpsize_pos(z[0]);
        lemma_cmp_trans(x[0], y[0], z[0]);
        lemma_cmp_s_trans(x.drop_first(), y.drop_first(), z.drop_first());
    }
}


/// The end of the digit run starting at `pos`.
pub open spec fn digit_end(s: Seq<u8>, pos: int) -> int
    decreases s.len() - pos,
{
    if pos < 0 || pos >= s.len() {
        s.len() as int
    } else if is_digit(s[pos]) {
        digit_end(s, pos + 1)
    } else {
        pos
    }
}

pub proof fn lemma_digit_end(s: Seq<u8>, pos: int)
    requires
        0 <= pos <= s.len(),
    ensures
        pos <= digit_end(s, pos) <= s.len(),
        forall|j: int| pos <= j < digit_end(s, pos) ==> is_digit(s[j]),
        digit_end(s, pos) < s.len() ==> !is_digit(s[digit_end(s, pos)]),
    decreases s.len() - pos,
{
    if pos < s.len() && is_digit(s[pos]) {
        lemma_digit_end(s, pos + 1);
    }
}

/// Parses one packet at `pos`: a bracketed list. Yields the packet and the
/// position just past it.
pub open spec fn sp_packet(s: Seq<u8>, pos: int) -> Option<(Pkt, int)>
    decreases s.len() - pos, 0int,
    when 0 <= pos
    via sp_packet_dec
{
    if pos < s.len() && s[pos] == 91 {
        if pos + 1 < s.len() && s[pos + 1] == 93 {
            Some((Pkt::List(Seq::empty()), pos + 2))
        } else {
            match sp_items(s, pos + 1) {
                Some((items, e)) => Some((Pkt::List(items), e)),
                None => None,
            }
        }
    } else {
        None
    }
}

/// Parses a comma-separated run of elements followed by a closing bracket.
/// Yields the elements and the position just past the bracket.
pub open spec fn sp_items(s: Seq<u8>, pos: int) -> Option<(Seq<Pkt>, int)>
    decreases s.len() - pos, 1int,
    when 0 <= pos
    via sp_items_dec
{
    let elem_opt: Option<(Pkt, int)> = if pos < s.len() && s[pos] == 91 {
        sp_packet(s, pos)
    } else if pos < s.len() && is_digit(s[pos]) {
        let de = digit_end(s, pos);
        if dec_val(s.subrange(pos, de)) <= u64::MAX {
            Some((Pkt::Value(dec_val(s.subrange(pos, de)) as u64), de))
        } else {
            None
        }
    } else {
        None
    };
    match elem_opt {
        None => None,
        Some((e, ee)) => if ee <= pos || ee > s.len() {
            None
        } else if ee < s.len() && s[ee] == 44 {
            match sp_items(s, ee + 1) {
                Some((items, fin)) => Some((seq![e] + items, fin)),
                None => None,
            }
        } else if ee < s.len() && s[ee] == 93 {
            Some((seq![e], ee + 1))
        } else {
            None
        },
    }
}

#[via_fn]
proof fn sp_packet_dec(s: Seq<u8>, pos: int) {
}

#[via_fn]
proof fn sp_items_dec(s: Seq<u8>, pos: int) {
    if 0 <= pos <= s.len() {
        lemma_digit_end(s, pos);
    }
}

/// The packet denoted by a whole line, when it parses completely.
pub open spec fn pkt_of(l: Seq<u8>) -> Option<Pkt> {
    match sp_packet(l, 0) {
        Some((p, e)) => if e == l.len() {
            Some(p)
        } else {
            None
        },
        None => None,
    }
}

/// Parses one packet at `pos`, following `sp_packet`.
fn ex_packet(s: &[u8], pos: usize) -> (r: Option<(Packet, usize)>)
    requires
        pos <= s@.len(),
    ensures
        match r {
            Some(pe) => sp_packet(s@, pos as int) == Some((pkt_view(&pe.0), pe.1 as int)) && pos
                < pe.1 <= s@.len(),
            None => sp_packet(s@, pos as int) is None,
        },
    decreases s@.len() - pos, 0int,
{
    let n = s.len();
    if !(pos < n && s[pos] == 91) {
        return None;
    }
    if pos + 1 < n && s[pos + 1] == 93 {
        let p = Packet::List(Vec::new());
        proof {
            assert(pkt_view(&p) == Pkt::List(pkts_view(Seq::<Packet>::empty())));
            assert(pkts_view(Seq::<Packet>::empty()) =~= Seq::<Pkt>::empty());
        }
        return Some((p, pos + 2));
    }
    match ex_items(s, pos + 1) {
        Some((items, e)) => {
            let p = Packet::List(items);
            Some((p, e))
        },
        None => None,
    }
}

/// Parses an element run and its closing bracket, following `sp_items`.
fn ex_items(s: &[u8], pos: usize) -> (r: Option<(Vec<Packet>, usize)>)
    requires
        pos <= s@.len(),
    ensures
        match r {
            Some(pe) => sp_items(s@, pos as int) == Some((pkts_view(pe.0@), pe.1 as int)) && pos
                < pe.1 <= s@.len(),
            None => sp_items(s@, pos as int) is None,
        },
    decreases s@.len() - pos, 1int,
{
    let n = s.len();
    let elem: (Packet, usize);
    if pos < n && s[pos] == 91 {
        match ex_packet(s, pos) {
            Some(pe) => {
                elem = pe;
            },
            None => {
                return None;
            },
        }
    } else if pos < n && s[pos] >= 48 && s[pos] <= 57 {
        let mut de: usize = pos;
        while de < n && s[de] >= 48 && s[de] <= 57
            invariant
                pos <= de <= n,
                n == s@.len(),
                digit_end(s@, pos as int) == digit_end(s@, de as int),
            decreases n - de,
        {
            de = de + 1;
        }
        proof {
            assert(digit_end(s@, de as int) == de);
        }
        let dseg = sub_vec(s, pos, de);
        proof {
            assert(dseg@.skip(0) =~= s@.subrange(pos as int, de as int));
        }
        match parse_dec(dseg.as_slice(), 0, u64::MAX as u128) {
            Some(v) => {
                elem = (Packet::Value(v as u64), de);
            },
            None => {
                proof {
                    lemma_digit_end(s@, pos as int);
                    crate::text::lemma_dec_val_nonneg(s@.subrange(pos as int, de as int));
                }
                return None;
            },
        }
    } else {
        return None;
    }
    let (e, ee) = elem;
    proof {
        lemma_digit_end(s@, pos as int);
    }
    if ee < n && s[ee] == 44 {
        match ex_items(s, ee + 1) {
            Some((items, fin)) => {
                let mut out: Vec<Packet> = Vec::new();
                let ghost ev = pkt_view(&e);
                out.push(e);
                let mut items = items;
                let ghost iv = pkts_view(items@);
                let ghost itemsv = items@;
                let ghost pree = out@;
                out.append(&mut items);
                proof {
                    assert(out@ == pree + itemsv);
                    assert(out@.subrange(0, 1) =~= pree);
                    assert(out@.subrange(1, out@.len() as int) =~= itemsv);
                    assert(out@[0] == e);
                    lemma_pkts_view_concat2(out@, ev, iv, pree);
                }
                Some((out, fin))
            },
            None => None,
        }
    } else if ee < n && s[ee] == 93 {
        let mut out: Vec<Packet> = Vec::new();
        let ghost ev = pkt_view(&e);
        out.push(e);
        proof {
            assert(pkts_view(out@) =~= seq![ev]) by {
                assert(out@.drop_last() =~= Seq::<Packet>::empty());
                assert(pkts_view(Seq::<Packet>::empty()) =~= Seq::<Pkt>::empty());
            }
        }
        Some((out, ee + 1))
    } else {
        None
    }
}

/// The models of a one-element-then-rest vector.
proof fn lemma_pkts_view_concat2(w: Seq<Packet>, ev: Pkt, iv: Seq<Pkt>, pre: Seq<Packet>)
    requires
        w.len() >= 1,
        pre.len() == 1,
        pkt_view(&w[0]) == ev,
        w.subrange(0, 1) == pre,
        pkts_view(w.subrange(1, w.len() as int)) == iv,
    ensures
        pkts_view(w) == seq![ev] + iv,
{
    lemma_pkts_view_len(w);
    assert forall|k: int| 0 <= k < w.len() implies pkts_view(w)[k] == (seq![ev] + iv)[k] by {
        lemma_pkts_view_index(w, k);
        if k >= 1 {
            lemma_pkts_view_index(w.subrange(1, w.len() as int), k - 1);
            assert(w.subrange(1, w.len() as int)[k - 1] == w[k]);
        }
    }
    lemma_pkts_view_len(w.subrange(1, w.len() as int));
    assert(pkts_view(w) =~= seq![ev] + iv);
}


/// Compares two packets, returning -1, 0 or 1 as `cmp_p` does.
fn cmp_exec(a: &Packet, b: &Packet) -> (r: i8)
    ensures
        r as int == cmp_p(pkt_view(a), pkt_view(b)),
    decreases gpsize(pkt_view(a)) + gpsize(pkt_view(b)), 0int,
{
    let ghost av = pkt_view(a);
    let ghost bv = pkt_view(b);
    match (a, b) {
        (Packet::Value(u), Packet::Value(v)) => {
            if u < v {
                -1
            } else if u > v {
                1
            } else {
                0
            }
        },
        (Packet::List(x), Packet::List(y)) => {
            let ghost xv = pkts_view(x@);
            let ghost yv = pkts_view(y@);
            proof {
                lemma_cmp_p_as_lists(av, bv);
                lemma_pkts_view_len(x@);
                lemma_pkts_view_len(y@);
                assert(cmp_s(xv.skip(0), yv.skip(0)) == cmp_s(xv, yv)) by {
                    assert(xv.skip(0) =~= xv);
                    assert(yv.skip(0) =~= yv);
                }
            }
            let xn = x.len();
            let yn = y.len();
            let mut i: usize = 0;
            loop
                invariant_except_break
                    i <= xn,
                    i <= yn,
                    xn == x@.len(),
                    yn == y@.len(),
                    xv == pkts_view(x@),
                    yv == pkts_view(y@),
                    av == pkt_view(a),
                    bv == pkt_view(b),
                    av == Pkt::List(xv),
                    bv == Pkt::List(yv),
                    cmp_s(xv, yv) == cmp_s(xv.skip(i as int), yv.skip(i as int)),
                ensures
                    cmp_s(xv, yv) == cmp_s(xv.skip(i as int), yv.skip(i as int)),
                    (i <= xn && i <= yn) && (i == xn || i == yn),
                    xn == x@.len(),
                    yn == y@.len(),
                    xv == pkts_view(x@),
                    yv == pkts_view(y@),
                    av == pkt_view(a),
                    bv == pkt_view(b),
                decreases xn - i,
            {
                if i == xn || i == yn {
                    break;
                }
                proof {
                    lemma_pkts_view_index(x@, i as int);
                    lemma_pkts_view_index(y@, i as int);
                    lemma_gssize_elem(xv, i as int);
                    lemma_gssize_elem(yv, i as int);
                    lemma_gssize_skip(xv, i as int);
                    lemma_gssize_skip(yv, i as int);
                    assert(xv.skip(i as int)[0] == xv[i as int]);
                    assert(yv.skip(i as int)[0] == yv[i as int]);
                    assert(gpsize(xv[i as int]) <= gssize(xv.skip(i as int))) by {
                        lemma_gssize_elem(xv.skip(i as int), 0);
                    }
                    assert(gpsize(yv[i as int]) <= gssize(yv.skip(i as int))) by {
                        lemma_gssize_elem(yv.skip(i as int), 0);
                    }
                }
                let c = cmp_exec(&x[i], &y[i]);
                if c != 0 {
                    proof {
                        assert(cmp_s(xv.skip(i as int), yv.skip(i as int)) == c as int);
                    }
                    return c;
                }
                proof {
                    assert(xv.skip(i as int).drop_first() =~= xv.skip(i + 1));
                    assert(yv.skip(i as int).drop_first() =~= yv.skip(i + 1));
                }
                i = i + 1;
            }
            proof {
                lemma_pkts_view_len(x@);
                lemma_pkts_view_len(y@);
            }
            if i == xn && i == yn {
                proof {
                    assert(xv.skip(i as int).len() == 0 && yv.skip(i as int).len() == 0);
                }
                0
            } else if i == xn {
                proof {
                    assert(xv.skip(i as int).len() == 0 && yv.skip(i as int).len() > 0);
                }
                -1
            } else {
                proof {
                    assert(xv.skip(i as int).len() > 0 && yv.skip(i as int).len() == 0);
                }
                1
            }
        },
        (Packet::Value(_), Packet::List(y)) => {
            let ghost yv = pkts_view(y@);
            proof {
                lemma_cmp_p_as_lists(av, bv);
                lemma_pkts_view_len(y@);
                assert(as_list(av) == seq![av]);
            }
            if y.len() == 0 {
                proof {
                    assert(cmp_s(seq![av], yv) == 1);
                }
                1
            } else {
                proof {
                    lemma_pkts_view_index(y@, 0);
                    lemma_gssize_elem(yv, 0);
                    assert(seq![av][0] == av);
                }
                let c = cmp_exec(a, &y[0]);
                if c != 0 {
                    c
                } else {
                    proof {
                        assert(seq![av].drop_first() =~= Seq::<Pkt>::empty());
                        assert(yv.drop_first().len() == yv.len() - 1);
                        assert(cmp_s(seq![av], yv) == cmp_s(
                            Seq::<Pkt>::empty(),
                            yv.drop_first(),
                        ));
                    }
                    if y.len() == 1 {
                        0
                    } else {
                        -1
                    }
                }
            }
        },
        (Packet::List(x), Packet::Value(_)) => {
            let ghost xv = pkts_view(x@);
            proof {
                lemma_cmp_p_as_lists(av, bv);
                lemma_pkts_view_len(x@);
                assert(as_list(bv) == seq![bv]);
            }
            if x.len() == 0 {
                proof {
                    assert(cmp_s(xv, seq![bv]) == -1);
                }
                -1
            } else {
                proof {
                    lemma_pkts_view_index(x@, 0);
                    lemma_gssize_elem(xv, 0);
                    assert(seq![bv][0] == bv);
                }
                let c = cmp_exec(&x[0], b);
                if c != 0 {
                    c
                } else {
                    proof {
                        assert(seq![bv].drop_first() =~= Seq::<Pkt>::empty());
                        assert(cmp_s(xv, seq![bv]) == cmp_s(
                            xv.drop_first(),
                            Seq::<Pkt>::empty(),
                        ));
                    }
                    if x.len() == 1 {
                        0
                    } else {
                        1
                    }
                }
            }
        },
    }
}

/// Whether the left packet comes first: `Some(true)` when it does,
/// `Some(false)` when the right one does, `None` on a tie.
pub fn compare_packets(left: &Packet, right: &Packet) -> (r: Option<bool>)
    ensures
        r == Some(true) <==> cmp_p(pkt_view(left), pkt_view(right)) == -1,
        r == Some(false) <==> cmp_p(pkt_view(left), pkt_view(right)) == 1,
        r is None <==> cmp_p(pkt_view(left), pkt_view(right)) == 0,
{
    proof {
        lemma_cmp_range(pkt_view(left), pkt_view(right));
    }
    let c = cmp_exec(left, right);
    if c < 0 {
        Some(true)
    } else if c > 0 {
        Some(false)
    } else {
        None
    }
}

/// The comparison takes no values besides -1, 0 and 1.
pub proof fn lemma_cmp_range(a: Pkt, b: Pkt)
    ensures
        -1 <= cmp_p(a, b) <= 1,
    decreases gpsize(a) + gpsize(b), 0int,
{
    match (a, b) {
        (Pkt::Value(_), Pkt::Value(_)) => {},
        _ => {
            lemma_cmp_p_as_lists(a, b);
            lemma_as_list_size(a);
            lemma_as_list_size(b);
            assert(gssize(as_list(a)) + gssize(as_list(b)) < gpsize(a) + gpsize(b)) by {
                match a {
                    Pkt::List(_) => {},
                    Pkt::Value(_) => {},
                }
            }
            lemma_cmp_s_range(as_list(a), as_list(b));
        },
    }
}

pub proof fn lemma_cmp_s_range(x: Seq<Pkt>, y: Seq<Pkt>)
    ensures
        -1 <= cmp_s(x, y) <= 1,
    decreases gssize(x) + gssize(y), 1int,
{
    if x.len() > 0 && y.len() > 0 {
        lemma_gssize_elem(x, 0);
        lemma_gssize_elem(y, 0);
        lemma_gpsize_pos(x[0]);
        lemma_gpsize_pos(y[0]);
        lemma_cmp_range(x[0], y[0]);
        if cmp_p(x[0], y[0]) == 0 {
            lemma_cmp_s_range(x.drop_first(), y.drop_first());
        }
    }
}

/// Parses one packet line; the line must parse completely.
pub fn parse_packet(input: &str) -> (r: Packet)
    requires
        pkt_of(input.spec_bytes()) is Some,
    ensures
        pkt_view(&r) == pkt_of(input.spec_bytes())->0,
{
    let bytes = input.as_bytes();
    match ex_packet(bytes, 0) {
        Some((p, e)) => {
            if e == bytes.len() {
                p
            } else {
                proof {
                    assert(false);
                }
                Packet::Value(0)
            }
        },
        None => {
            proof {
                assert(false);
            }
            Packet::Value(0)
        },
    }
}


/// Folds the lines into packet pairs: two packet lines, then either the end
/// or a blank line before the next pair.
pub open spec fn pairs_rec(ls: Seq<Seq<u8>>, i: int, acc: Seq<(Pkt, Pkt)>) -> Option<
    Seq<(Pkt, Pkt)>,
>
    decreases ls.len() - i,
{
    if i < 0 || i + 1 >= ls.len() {
        None
    } else {
        match (pkt_of(ls[i]), pkt_of(ls[i + 1])) {
            (Some(pa), Some(pb)) => {
                let acc2 = acc.push((pa, pb));
                if i + 2 == ls.len() {
                    Some(acc2)
                } else if ls[i + 2].len() == 0 && i + 3 < ls.len() {
                    pairs_rec(ls, i + 3, acc2)
                } else {
                    None
                }
            },
            _ => None,
        }
    }
}

pub open spec fn pairs_of(s: Seq<u8>) -> Option<Seq<(Pkt, Pkt)>> {
    pairs_rec(lines_of(s), 0, Seq::empty())
}

pub open spec fn day13_wf(s: Seq<u8>) -> bool {
    pairs_of(s) is Some
}

/// Sum of the 1-based indices of the pairs already in order.
pub open spec fn p1_sum(ps: Seq<(Pkt, Pkt)>) -> int
    decreases ps.len(),
{
    if ps.len() == 0 {
        0
    } else {
        p1_sum(ps.drop_last()) + if cmp_p(ps.last().0, ps.last().1) == -1 {
            ps.len() as int
        } else {
            0int
        }
    }
}

pub open spec fn day13_p1(s: Seq<u8>) -> Seq<char> {
    dec_str(p1_sum(pairs_of(s)->0) as nat)
}

/// All packets of the pairs, in input order.
pub open spec fn flat(ps: Seq<(Pkt, Pkt)>) -> Seq<Pkt>
    decreases ps.len(),
{
    if ps.len() == 0 {
        Seq::empty()
    } else {
        flat(ps.drop_last()) + seq![ps.last().0, ps.last().1]
    }
}

/// A divider packet `[[v]]`.
pub open spec fn divider(v: u64) -> Pkt {
    Pkt::List(seq![Pkt::List(seq![Pkt::Value(v)])])
}

/// How many packets sort at or before `d`.
pub open spec fn count_le(s: Seq<Pkt>, d: Pkt) -> int
    decreases s.len(),
{
    if s.len() == 0 {
        0
    } else {
        count_le(s.drop_last(), d) + if cmp_p(s.last(), d) <= 0 {
            1int
        } else {
            0int
        }
    }
}

/// The part-two value: the product of the sorted 1-based positions of the two
/// dividers, the input packets first among the equal and `[[2]]` before
/// `[[6]]`.
pub open spec fn p2_val(ps: Seq<(Pkt, Pkt)>) -> int {
    (1 + count_le(flat(ps), divider(2))) * (2 + count_le(flat(ps), divider(6)))
}

pub open spec fn day13_p2(s: Seq<u8>) -> Seq<char> {
    dec_str(p2_val(pairs_of(s)->0) as nat)
}

/// The models of a parsed pair vector.
pub open spec fn pairs_view(v: Seq<(Packet, Packet)>) -> Seq<(Pkt, Pkt)> {
    v.map_values(|p: (Packet, Packet)| (pkt_view(&p.0), pkt_view(&p.1)))
}

/// Builds the divider packet `[[v]]`.
fn make_divider(v: u64) -> (r: Packet)
    ensures
        pkt_view(&r) == divider(v),
{
    let mut inner: Vec<Packet> = Vec::new();
    inner.push(Packet::Value(v));
    proof {
        assert(inner@.drop_last() =~= Seq::<Packet>::empty());
        assert(pkts_view(Seq::<Packet>::empty()) =~= Seq::<Pkt>::empty());
        assert(inner@.last() == Packet::Value(v));
        assert(pkt_view(&inner@.last()) == Pkt::Value(v));
        assert(pkts_view(inner@) =~= seq![Pkt::Value(v)]);
    }
    let ghost gi = inner@;
    let p_inner = Packet::List(inner);
    let ghost gpi = p_inner;
    let mut outer: Vec<Packet> = Vec::new();
    outer.push(p_inner);
    proof {
        assert(outer@.drop_last() =~= Seq::<Packet>::empty());
        assert(outer@.last() == gpi);
        assert(pkt_view(&gpi) == Pkt::List(pkts_view(gi)));
        assert(pkts_view(outer@) =~= seq![Pkt::List(seq![Pkt::Value(v)])]);
    }
    let ghost go = outer@;
    let r = Packet::List(outer);
    proof {
        assert(pkt_view(&r) == Pkt::List(pkts_view(go)));
        assert(Pkt::List(pkts_view(go)) == divider(v));
    }
    r
}

impl Day13 {
    /// Parses the packet pairs; `None` when the pair layout or a packet line
    /// is malformed. At most a third of the input bytes, plus one, can start
    /// a pair.
    pub fn parse_input(input: &str) -> (r: Option<Vec<(Packet, Packet)>>)
        ensures
            r is Some <==> day13_wf(input.spec_bytes()),
            r is Some ==> pairs_view((r->0)@) == pairs_of(input.spec_bytes())->0,
            r is Some ==> 3 * (r->0)@.len() <= input.spec_bytes().len() + 2,
    {
        let bytes = input.as_bytes();
        let blen = bytes.len();
        let lines = split_lines(bytes);
        let ghost ls = lines_of(input.spec_bytes());
        proof {
            lemma_lines_count(input.spec_bytes(), 0);
            assert(input.spec_bytes().len() <= usize::MAX) by {
                assert(bytes@.len() == blen as int);
            }
        }
        let n: usize = lines.len();
        let mut out: Vec<(Packet, Packet)> = Vec::new();
        proof {
            assert(pairs_view(out@) =~= Seq::<(Pkt, Pkt)>::empty());
        }
        let mut i: usize = 0;
        loop
            invariant_except_break
                i <= n,
                n == lines@.len(),
                lines.deep_view() == ls,
                ls == lines_of(input.spec_bytes()),
                ls.len() <= input.spec_bytes().len(),
                pairs_rec(ls, 0, Seq::empty()) == pairs_rec(ls, i as int, pairs_view(out@)),
                3 * out@.len() <= i + 1,
            ensures
                day13_wf(input.spec_bytes()),
                pairs_view(out@) == pairs_of(input.spec_bytes())->0,
                3 * out@.len() <= input.spec_bytes().len() + 2,
            decreases n - i,
        {
            if i >= n || n - i < 2 {
                proof {
                    assert(pairs_rec(ls, i as int, pairs_view(out@)) is None);
                    assert(!day13_wf(input.spec_bytes()));
                }
                return None;
            }
            let la = &lines[i];
            let lb = &lines[i + 1];
            proof {
                assert(la.deep_view() == ls[i as int]);
                assert(la@ =~= ls[i as int]);
                assert(lb.deep_view() == ls[i + 1]);
                assert(lb@ =~= ls[i + 1]);
            }
            let pa_opt = ex_packet(la.as_slice(), 0);
            let pb_opt = ex_packet(lb.as_slice(), 0);
            let pa: Packet;
            let pb: Packet;
            match (pa_opt, pb_opt) {
                (Some((p0, e0)), Some((p1, e1))) => {
                    if e0 != la.len() || e1 != lb.len() {
                        proof {
                            assert(pairs_rec(ls, i as int, pairs_view(out@)) is None);
                        }
                        return None;
                    }
                    pa = p0;
                    pb = p1;
                },
                _ => {
                    proof {
                        assert(pkt_of(ls[i as int]) is None || pkt_of(ls[i + 1]) is None);
                        assert(pairs_rec(ls, i as int, pairs_view(out@)) is None);
                    }
                    return None;
                },
            }
            let ghost pav = pkt_view(&pa);
            let ghost pbv = pkt_view(&pb);
            let ghost pre = pairs_view(out@);
            let ghost prev = out@;
            let pair = (pa, pb);
            let ghost gp = pair;
            out.push(pair);
            proof {
                assert(out@ == prev.push(gp));
                assert(pairs_view(out@) =~= pre.push((pav, pbv)));
                assert(pkt_of(ls[i as int]) == Some(pav));
                assert(pkt_of(ls[i + 1]) == Some(pbv));
            }
            if i + 2 == n {
                proof {
                    assert(pairs_rec(ls, i as int, pre) == Some(pairs_view(out@)));
                }
                break;
            }
            let sep = &lines[i + 2];
            proof {
                assert(sep.deep_view() == ls[i + 2]);
                assert(sep@ =~= ls[i + 2]);
            }
            if sep.len() != 0 || i + 3 >= n {
                proof {
                    assert(pairs_rec(ls, i as int, pre) is None);
                }
                return None;
            }
            i = i + 3;
        }
        Some(out)
    }

    /// Part one: the sum of the 1-based indices of ordered pairs.
    pub fn part_one(pairs: &Vec<(Packet, Packet)>) -> (r: String)
        ensures
            r@ == dec_str(p1_sum(pairs_view(pairs@)) as nat),
    {
        let ghost pv = pairs_view(pairs@);
        let n: usize = pairs.len();
        let mut sum: u128 = 0;
        let mut k: usize = 0;
        while k < n
            invariant
                k <= n,
                n == pairs@.len(),
                pv == pairs_view(pairs@),
                sum as int == p1_sum(pv.take(k as int)),
                sum as int <= (k as int) * (n as int),
            decreases n - k,
        {
            proof {
                assert(pv.take(k + 1).drop_last() =~= pv.take(k as int));
                assert(pv.take(k + 1).last() == pv[k as int]);
                assert(pv[k as int] == (pkt_view(&pairs@[k as int].0), pkt_view(
                    &pairs@[k as int].1,
                )));
                assert((k as int) * (n as int) + (n as int) == (k + 1) * (n as int))
                    by (nonlinear_arith);
                assert((k as int) * (n as int) <= 0xffff_ffff_ffff_ffff * 0xffff_ffff_ffff_ffff)
                    by (nonlinear_arith)
                    requires
                        0 <= k as int <= 0xffff_ffff_ffff_ffff,
                        0 <= n as int <= 0xffff_ffff_ffff_ffff,
                ;
                assert(k as int + 1 <= n as int);
            }
            let c = cmp_exec(&pairs[k].0, &pairs[k].1);
            if c == -1 {
                sum = sum + (k as u128) + 1;
            }
            k = k + 1;
        }
        proof {
            assert(pv.take(n as int) =~= pv);
        }
        u128_string(sum)
    }

    /// Part two: the product of the sorted positions of the two dividers.
    pub fn part_two(pairs: &Vec<(Packet, Packet)>) -> (r: String)
        requires
            3 * pairs@.len() <= usize::MAX as int + 2,
        ensures
            r@ == dec_str(p2_val(pairs_view(pairs@)) as nat),
    {
        let ghost pv = pairs_view(pairs@);
        let d2 = make_divider(2);
        let d6 = make_divider(6);
        let c2 = count_below(pairs, &d2);
        let c6 = count_below(pairs, &d6);
        proof {
            lemma_count_le_bound(flat(pv), divider(2));
            lemma_count_le_bound(flat(pv), divider(6));
            lemma_flat_len(pv);
            assert(pv.len() == pairs@.len()) by {
                assert(pairs_view(pairs@).len() == pairs@.len());
            }
            assert((1 + c2 as int) * (2 + c6 as int) <= (1 + 2 * pv.len()) * (2 + 2 * pv.len()))
                by (nonlinear_arith)
                requires
                    0 <= c2 as int <= 2 * pv.len(),
                    0 <= c6 as int <= 2 * pv.len(),
            ;
            assert((1 + 2 * pv.len()) * (2 + 2 * pv.len()) < 0xffff_ffff_ffff_ffff_ffff_ffff_ffff_ffff)
                by (nonlinear_arith)
                requires
                    0 <= pv.len(),
                    3 * pv.len() <= usize::MAX as int + 2,
                    usize::MAX as int <= 0xffff_ffff_ffff_ffff,
            ;
        }
        let pos2: u128 = 1 + c2;
        let pos6: u128 = 2 + c6;
        u128_string(pos2 * pos6)
    }

    /// Runs both parts over one parse; with the flag set, part one is skipped
    /// and reported as "0". Empty input reports "0" for both parts.
    pub fn solve(input: &str, only_part_two: bool) -> (r: (String, String))
        requires
            input.spec_bytes().len() == 0 || day13_wf(input.spec_bytes()),
        ensures
            r.0@ == if input.spec_bytes().len() == 0 || only_part_two {
                dec_str(0)
            } else {
                day13_p1(input.spec_bytes())
            },
            r.1@ == if input.spec_bytes().len() == 0 {
                dec_str(0)
            } else {
                day13_p2(input.spec_bytes())
            },
    {
        if input.as_bytes().len() == 0 {
            return (u128_string(0), u128_string(0));
        }
        let blen = input.as_bytes().len();
        proof {
            assert(input.spec_bytes().len() == blen as int);
        }
        match Self::parse_input(input) {
            Some(pairs) => {
                let p2 = Self::part_two(&pairs);
                let p1 = if only_part_two {
                    u128_string(0)
                } else {
                    Self::part_one(&pairs)
                };
                (p1, p2)
            },
            None => {
                proof {
                    assert(false);
                }
                (u128_string(0), u128_string(0))
            },
        }
    }

    /// Part one alone, from raw input.
    pub fn solve_part_one(input: &str) -> (r: String)
        requires
            input.spec_bytes().len() == 0 || day13_wf(input.spec_bytes()),
        ensures
            r@ == if input.spec_bytes().len() == 0 {
                dec_str(0)
            } else {
                day13_p1(input.spec_bytes())
            },
    {
        let (p1, _p2) = Self::solve(input, false);
        p1
    }

    /// Part two alone, from raw input.
    pub fn solve_part_two(input: &str) -> (r: String)
        requires
            input.spec_bytes().len() == 0 || day13_wf(input.spec_bytes()),
        ensures
            r@ == if input.spec_bytes().len() == 0 {
                dec_str(0)
            } else {
                day13_p2(input.spec_bytes())
            },
    {
        let (_p1, p2) = Self::solve(input, true);
        p2
    }
}

/// How many packets of the pairs sort at or before `d`.
fn count_below(pairs: &Vec<(Packet, Packet)>, d: &Packet) -> (r: u128)
    ensures
        r as int == count_le(flat(pairs_view(pairs@)), pkt_view(d)),
        r as int <= 2 * pairs@.len(),
{
    let ghost pv = pairs_view(pairs@);
    let ghost dv = pkt_view(d);
    let n: usize = pairs.len();
    let mut count: u128 = 0;
    let mut k: usize = 0;
    proof {
        assert(flat(pv.take(0)) =~= Seq::<Pkt>::empty());
        assert(pv.take(0) =~= Seq::<(Pkt, Pkt)>::empty());
    }
    while k < n
        invariant
            k <= n,
            n == pairs@.len(),
            pv == pairs_view(pairs@),
            dv == pkt_view(d),
            count as int == count_le(flat(pv.take(k as int)), dv),
            count as int <= 2 * k,
        decreases n - k,
    {
        proof {
            assert(pv.take(k + 1).drop_last() =~= pv.take(k as int));
            assert(pv.take(k + 1).last() == pv[k as int]);
            assert(pv[k as int] == (pkt_view(&pairs@[k as int].0), pkt_view(&pairs@[k as int].1)));
            lemma_flat_step(pv, k as int, dv);
        }
        let ca = cmp_exec(&pairs[k].0, d);
        let cb = cmp_exec(&pairs[k].1, d);
        if ca <= 0 {
            count = count + 1;
        }
        if cb <= 0 {
            count = count + 1;
        }
        k = k + 1;
    }
    proof {
        assert(pv.take(n as int) =~= pv);
    }
    count
}

/// Appending one pair adds its two packets to the flattened count.
proof fn lemma_flat_step(pv: Seq<(Pkt, Pkt)>, k: int, d: Pkt)
    requires
        0 <= k < pv.len(),
    ensures
        count_le(flat(pv.take(k + 1)), d) == count_le(flat(pv.take(k)), d) + (if cmp_p(
            pv[k].0,
            d,
        ) <= 0 {
            1int
        } else {
            0int
        }) + (if cmp_p(pv[k].1, d) <= 0 {
            1int
        } else {
            0int
        }),
{
    let f1 = flat(pv.take(k + 1));
    let f0 = flat(pv.take(k));
    assert(pv.take(k + 1).drop_last() =~= pv.take(k));
    assert(pv.take(k + 1).last() == pv[k]);
    assert(f1 == f0 + seq![pv[k].0, pv[k].1]);
    assert(f1.len() == f0.len() + 2);
    assert(f1.drop_last() =~= f0.push(pv[k].0));
    assert(f1.last() == pv[k].1);
    assert(f0.push(pv[k].0).drop_last() =~= f0);
    assert(f0.push(pv[k].0).last() == pv[k].0);
    assert(count_le(f1, d) == count_le(f1.drop_last(), d) + if cmp_p(f1.last(), d) <= 0 {
        1int
    } else {
        0int
    });
    assert(count_le(f0.push(pv[k].0), d) == count_le(f0, d) + if cmp_p(pv[k].0, d) <= 0 {
        1int
    } else {
        0int
    });
}

/// The flattened pairs hold twice as many packets.
proof fn lemma_flat_len(ps: Seq<(Pkt, Pkt)>)
    ensures
        flat(ps).len() == 2 * ps.len(),
    decreases ps.len(),
{
    if ps.len() > 0 {
        lemma_flat_len(ps.drop_last());
    }
}

/// No more packets sort at or before `d` than there are packets.
proof fn lemma_count_le_bound(s: Seq<Pkt>, d: Pkt)
    ensures
        0 <= count_le(s, d) <= s.len(),
    decreases s.len(),
{
    if s.len() > 0 {
        lemma_count_le_bound(s.drop_last(), d);
    }
}


} // verus!
