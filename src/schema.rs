//! The wire form of a telemetry record:
//! sixteen hexadecimal characters, then exactly eight groups of `,` followed
//! by an optional `-` and one or more decimal digits, and nothing else.

use vstd::prelude::*;

verus! {

/// Length of the device identifier at the start of a record.
pub const ID_LEN: usize = 16;

/// Number of integer fields that follow the device identifier.
pub const FIELD_COUNT: usize = 8;

pub open spec fn is_hex_byte(b: u8) -> bool {
    (0x30 <= b && b <= 0x39) || (0x41 <= b && b <= 0x46) || (0x61 <= b && b <= 0x66)
}

pub open spec fn is_digit_byte(b: u8) -> bool {
    0x30 <= b && b <= 0x39
}

/// `t` is `-?[0-9]+`.
pub open spec fn is_int_token(t: Seq<u8>) -> bool {
    if t.len() > 0 && t[0] == 0x2d {
        t.len() >= 2 && forall|k: int| 1 <= k < t.len() ==> is_digit_byte(#[trigger] t[k])
    } else {
        t.len() >= 1 && forall|k: int| 0 <= k < t.len() ==> is_digit_byte(#[trigger] t[k])
    }
}

/// `t` can still be extended to an integer token: empty, a lone `-`, or a token.
pub open spec fn is_int_prefix(t: Seq<u8>) -> bool {
    t.len() == 0 || t =~= seq![0x2du8] || is_int_token(t)
}

/// The pieces of `s` between commas, in order; there is always at least one.
pub open spec fn split_commas(s: Seq<u8>) -> Seq<Seq<u8>>
    decreases s.len(),
{
    if s.len() == 0 {
        seq![Seq::empty()]
    } else {
        let init = split_commas(s.drop_last());
        if s.last() == 0x2c {
            init.push(Seq::empty())
        } else {
            init.update(init.len() - 1, init.last().push(s.last()))
        }
    }
}

/// The integer fields of a record: what follows the identifier and its comma.
pub open spec fn fields_of(p: Seq<u8>) -> Seq<Seq<u8>> {
    split_commas(p.subrange(ID_LEN as int + 1, p.len() as int))
}

/// `p` is a well-formed telemetry record, matched as a whole.
pub open spec fn is_record(p: Seq<u8>) -> bool {
    &&& p.len() > ID_LEN
    &&& forall|k: int| 0 <= k < ID_LEN ==> is_hex_byte(#[trigger] p[k])
    &&& p[ID_LEN as int] == 0x2c
    &&& fields_of(p).len() == FIELD_COUNT
    &&& forall|j: int| 0 <= j < FIELD_COUNT ==> is_int_token(#[trigger] fields_of(p)[j])
}

proof fn lemma_split_len(s: Seq<u8>)
    ensures
        split_commas(s).len() >= 1,
    decreases s.len(),
{
    if s.len() > 0 {
        lemma_split_len(s.drop_last());
    }
}

/// Splitting one byte further only touches the last piece, or opens a new one.
pub proof fn lemma_split_step(p: Seq<u8>, lo: int, i: int)
    requires
        0 <= lo <= i < p.len(),
    ensures
        split_commas(p.subrange(lo, i + 1)) == ({
            let init = split_commas(p.subrange(lo, i));
            if p[i] == 0x2c {
                init.push(Seq::empty())
            } else {
                init.update(init.len() - 1, init.last().push(p[i]))
            }
        }),
        split_commas(p.subrange(lo, i)).len() >= 1,
{
    assert(p.subrange(lo, i + 1).drop_last() =~= p.subrange(lo, i));
    lemma_split_len(p.subrange(lo, i));
}

proof fn lemma_prefix_closed(t: Seq<u8>, c: u8)
    requires
        !is_int_prefix(t),
    ensures
        !is_int_prefix(t.push(c)),
        !is_int_token(t),
{
    let u = t.push(c);
    if is_int_token(u) {
        if u[0] == 0x2d {
            assert(t.len() >= 1);
            if t.len() == 1 {
                assert(t =~= seq![0x2du8]);
            } else {
                assert(forall|k: int| 1 <= k < t.len() ==> t[k] == u[k]);
            }
        } else {
            if t.len() > 0 {
                assert(forall|k: int| 0 <= k < t.len() ==> t[k] == u[k]);
            }
        }
    }
}

/// The number of pieces adds up over a concatenation, less the piece shared
/// at the seam.
proof fn lemma_split_len_concat(a: Seq<u8>, b: Seq<u8>)
    ensures
        split_commas(a + b).len() + 1 == split_commas(a).len() + split_commas(b).len(),
    decreases b.len(),
{
    lemma_split_len(a);
    if b.len() == 0 {
        assert(a + b =~= a);
    } else {
        lemma_split_len_concat(a, b.drop_last());
        assert((a + b).drop_last() =~= a + b.drop_last());
        lemma_split_len(a + b.drop_last());
        lemma_split_len(b.drop_last());
    }
}

/// A record whose identifier holds a byte that is not hexadecimal is rejected.
pub proof fn lemma_non_hex_id_rejected(p: Seq<u8>, k: int)
    requires
        0 <= k < ID_LEN,
        k < p.len(),
        !is_hex_byte(p[k]),
    ensures
        !is_record(p),
{
}

/// A record with one more hexadecimal digit in its identifier is rejected.
pub proof fn lemma_longer_id_rejected(p: Seq<u8>, k: int, h: u8)
    requires
        is_record(p),
        0 <= k <= ID_LEN,
        is_hex_byte(h),
    ensures
        !is_record(p.subrange(0, k) + seq![h] + p.subrange(k, p.len() as int)),
{
    let q = p.subrange(0, k) + seq![h] + p.subrange(k, p.len() as int);
    if k < ID_LEN {
        assert(q[ID_LEN as int] == p[ID_LEN - 1]);
        assert(is_hex_byte(p[ID_LEN - 1]));
    } else {
        assert(q[ID_LEN as int] == h);
    }
}

proof fn lemma_leading_comma(s: Seq<u8>)
    requires
        s.len() > 0,
        s[0] == 0x2c,
    ensures
        split_commas(s).len() >= 2,
        split_commas(s)[0].len() == 0,
    decreases s.len(),
{
    reveal_with_fuel(split_commas, 2);
    if s.len() == 1 {
        assert(s.drop_last() =~= Seq::<u8>::empty());
        assert(s.last() == 0x2c);
    } else {
        assert(s.drop_last()[0] == 0x2c);
        lemma_leading_comma(s.drop_last());
    }
}

/// A record with one of its field separators removed is rejected.
pub proof fn lemma_missing_comma_rejected(p: Seq<u8>, k: int)
    requires
        is_record(p),
        ID_LEN < k < p.len(),
        p[k] == 0x2c,
    ensures
        !is_record(p.subrange(0, k) + p.subrange(k + 1, p.len() as int)),
{
    let lo = ID_LEN as int + 1;
    let q = p.subrange(0, k) + p.subrange(k + 1, p.len() as int);
    if k == lo {
        lemma_leading_comma(p.subrange(lo, p.len() as int));
        assert(!is_int_token(fields_of(p)[0]));
    } else {
        let a = p.subrange(lo, k);
        let b = p.subrange(k + 1, p.len() as int);
        assert(p.subrange(lo, p.len() as int) =~= (a + seq![0x2cu8]) + b);
        assert(q.subrange(lo, q.len() as int) =~= a + b);
        assert(q[ID_LEN as int] == p[ID_LEN as int]);
        lemma_split_len_concat(a + seq![0x2cu8], b);
        lemma_split_len_concat(a, b);
        assert((a + seq![0x2cu8]).drop_last() =~= a);
        lemma_split_len(a);
    }
}

/// A record followed by one more field is rejected.
pub proof fn lemma_extra_field_rejected(p: Seq<u8>, t: Seq<u8>)
    requires
        is_record(p),
    ensures
        !is_record(p + seq![0x2cu8] + t),
{
    let lo = ID_LEN as int + 1;
    let q = p + seq![0x2cu8] + t;
    let f = p.subrange(lo, p.len() as int);
    assert(q.subrange(lo, q.len() as int) =~= (f + seq![0x2cu8]) + t);
    assert(q[ID_LEN as int] == p[ID_LEN as int]);
    lemma_split_len_concat(f + seq![0x2cu8], t);
    lemma_split_len(t);
    assert((f + seq![0x2cu8]).drop_last() =~= f);
}

/// The bytes that a list of field tokens is written as: each one preceded by
/// a comma.
pub open spec fn join_fields(ts: Seq<Seq<u8>>) -> Seq<u8>
    decreases ts.len(),
{
    if ts.len() == 0 {
        Seq::empty()
    } else {
        join_fields(ts.drop_last()) + seq![0x2cu8] + ts.last()
    }
}

/// `p` is sixteen hexadecimal digits followed by the eight tokens `ts`, each
/// after a comma.
pub open spec fn pattern_instance(p: Seq<u8>, ts: Seq<Seq<u8>>) -> bool {
    &&& p.len() >= ID_LEN
    &&& forall|k: int| 0 <= k < ID_LEN ==> is_hex_byte(#[trigger] p[k])
    &&& ts.len() == FIELD_COUNT
    &&& forall|j: int| 0 <= j < FIELD_COUNT ==> is_int_token(#[trigger] ts[j])
    &&& p == p.subrange(0, ID_LEN as int) + join_fields(ts)
}

/// `p` matches the anchored pattern `^[0-9a-fA-F]{16}(,-?[0-9]+){8}$`.
pub open spec fn matches_pattern(p: Seq<u8>) -> bool {
    exists|ts: Seq<Seq<u8>>| #[trigger] pattern_instance(p, ts)
}

pub open spec fn comma_free(t: Seq<u8>) -> bool {
    forall|k: int| 0 <= k < t.len() ==> #[trigger] t[k] != 0x2c
}

proof fn lemma_join_split(s: Seq<u8>)
    ensures
        join_fields(split_commas(s)) == seq![0x2cu8] + s,
    decreases s.len(),
{
    lemma_split_len(s);
    if s.len() == 0 {
        let one = seq![Seq::<u8>::empty()];
        reveal_with_fuel(join_fields, 2);
        assert(one.drop_last() =~= Seq::<Seq<u8>>::empty());
        assert(join_fields(one) =~= seq![0x2cu8] + s);
    } else {
        let init = split_commas(s.drop_last());
        lemma_join_split(s.drop_last());
        lemma_split_len(s.drop_last());
        if s.last() == 0x2c {
            assert(init.push(Seq::empty()).drop_last() =~= init);
            assert(join_fields(split_commas(s)) =~= seq![0x2cu8] + s);
        } else {
            let l = init.len() - 1;
            let nw = init.update(l, init.last().push(s.last()));
            assert(nw.drop_last() =~= init.drop_last());
            assert(join_fields(init) == join_fields(init.drop_last()) + seq![0x2cu8] + init.last());
            assert(join_fields(nw) == join_fields(init.drop_last()) + seq![0x2cu8] + nw.last());
            assert(nw.last() == init.last().push(s.last()));
            assert(join_fields(nw) =~= join_fields(init).push(s.last()));
            assert((seq![0x2cu8] + s.drop_last()).push(s.last()) =~= seq![0x2cu8] + s);
        }
    }
}

proof fn lemma_split_extend(a: Seq<u8>, t: Seq<u8>)
    requires
        comma_free(t),
    ensures
        split_commas(a + t) == split_commas(a).update(
            split_commas(a).len() - 1,
            split_commas(a).last() + t,
        ),
    decreases t.len(),
{
    lemma_split_len(a);
    let sa = split_commas(a);
    if t.len() == 0 {
        assert(a + t =~= a);
        assert(sa.last() + t =~= sa.last());
        assert(sa.update(sa.len() - 1, sa.last() + t) =~= sa);
    } else {
        let u = t.drop_last();
        assert(t[t.len() - 1] != 0x2c);
        lemma_split_extend(a, u);
        assert((a + t).drop_last() =~= a + u);
        assert((sa.last() + u).push(t.last()) =~= sa.last() + t);
        assert(split_commas(a + t) =~= sa.update(sa.len() - 1, sa.last() + t));
    }
}

proof fn lemma_join_first(ts: Seq<Seq<u8>>)
    requires
        ts.len() >= 1,
    ensures
        join_fields(ts).len() >= 1,
        join_fields(ts)[0] == 0x2c,
    decreases ts.len(),
{
    reveal_with_fuel(join_fields, 2);
    if ts.len() > 1 {
        lemma_join_first(ts.drop_last());
        let j = join_fields(ts.drop_last());
        assert((j + seq![0x2cu8] + ts.last())[0] == j[0]);
    } else {
        assert(ts.drop_last() =~= Seq::<Seq<u8>>::empty());
    }
}

proof fn lemma_split_join(ts: Seq<Seq<u8>>, s: Seq<u8>)
    requires
        ts.len() >= 1,
        forall|j: int| 0 <= j < ts.len() ==> comma_free(#[trigger] ts[j]),
        seq![0x2cu8] + s == join_fields(ts),
    ensures
        split_commas(s) == ts,
    decreases ts.len(),
{
    let t = ts.last();
    assert(comma_free(ts[ts.len() - 1]));
    let whole = seq![0x2cu8] + s;
    assert(s =~= whole.drop_first());
    if ts.len() == 1 {
        reveal_with_fuel(join_fields, 2);
        assert(ts.drop_last() =~= Seq::<Seq<u8>>::empty());
        assert(join_fields(ts) =~= seq![0x2cu8] + t);
        assert(s =~= (seq![0x2cu8] + t).drop_first());
        assert(s =~= Seq::<u8>::empty() + t);
        lemma_split_extend(Seq::empty(), t);
        assert(Seq::<u8>::empty() + t =~= t);
        assert(split_commas(s) =~= ts);
    } else {
        let rest = ts.drop_last();
        let j = join_fields(rest);
        lemma_join_first(rest);
        let s1 = j.drop_first();
        assert(seq![0x2cu8] + s1 =~= j);
        lemma_split_join(rest, s1);
        let a = s1 + seq![0x2cu8];
        assert(join_fields(ts) == j + seq![0x2cu8] + t);
        assert(j + seq![0x2cu8] + t =~= seq![0x2cu8] + (a + t));
        assert(s =~= (seq![0x2cu8] + (a + t)).drop_first());
        assert(s =~= a + t);
        lemma_split_extend(a, t);
        assert(a.drop_last() =~= s1);
        lemma_split_len(s1);
        assert(split_commas(a) == rest.push(Seq::empty()));
        assert(Seq::<u8>::empty() + t =~= t);
        assert(split_commas(s) =~= ts);
    }
}

/// A string is a well-formed record exactly when it matches the anchored
/// pattern `^[0-9a-fA-F]{16}(,-?[0-9]+){8}$`.
pub proof fn lemma_record_is_pattern(p: Seq<u8>)
    ensures
        is_record(p) <==> matches_pattern(p),
{
    let lo = ID_LEN as int + 1;
    if is_record(p) {
        let ts = fields_of(p);
        lemma_join_split(p.subrange(lo, p.len() as int));
        assert(p =~= p.subrange(0, ID_LEN as int) + join_fields(ts));
        assert(pattern_instance(p, ts));
    }
    if matches_pattern(p) {
        let ts = choose|ts: Seq<Seq<u8>>| pattern_instance(p, ts);
        lemma_join_first(ts);
        let j = join_fields(ts);
        assert(p[ID_LEN as int] == j[0]);
        let s = p.subrange(lo, p.len() as int);
        assert(seq![0x2cu8] + s =~= j);
        assert forall|i: int| 0 <= i < ts.len() implies comma_free(#[trigger] ts[i]) by {
            assert(is_int_token(ts[i]));
            assert forall|k: int| 0 <= k < ts[i].len() implies #[trigger] ts[i][k] != 0x2c by {
                if ts[i][0] == 0x2d && k > 0 {
                    assert(is_digit_byte(ts[i][k]));
                } else if ts[i][0] != 0x2d {
                    assert(is_digit_byte(ts[i][k]));
                }
            }
        }
        lemma_split_join(ts, s);
    }
}

/// A record cut short at one of its field separators is rejected: it has
/// fields missing.
pub proof fn lemma_missing_field_rejected(p: Seq<u8>, k: int)
    requires
        is_record(p),
        ID_LEN < k < p.len(),
        p[k] == 0x2c,
    ensures
        !is_record(p.subrange(0, k)),
{
    let lo = ID_LEN as int + 1;
    let q = p.subrange(0, k);
    if k > ID_LEN + 1 {
        let a = p.subrange(lo, k);
        let b = p.subrange(k + 1, p.len() as int);
        assert(p.subrange(lo, p.len() as int) =~= (a + seq![0x2cu8]) + b);
        assert(q.subrange(lo, q.len() as int) =~= a);
        lemma_split_len_concat(a + seq![0x2cu8], b);
        assert((a + seq![0x2cu8]).drop_last() =~= a);
        lemma_split_len(a);
        lemma_split_len(b);
    }
}

/// Whether `payload` is a well-formed telemetry record.
pub fn is_valid(payload: &[u8]) -> (r: bool)
    ensures
        r == is_record(payload@),
{
    let n = payload.len();
    if n <= ID_LEN {
        return false;
    }
    let mut k: usize = 0;
    while k < ID_LEN
        invariant
            k <= ID_LEN < n == payload@.len(),
            forall|m: int| 0 <= m < k ==> is_hex_byte(#[trigger] payload@[m]),
        decreases ID_LEN - k,
    {
        let b = payload[k];
        if !((0x30 <= b && b <= 0x39) || (0x41 <= b && b <= 0x46) || (0x61 <= b && b <= 0x66)) {
            return false;
        }
        k = k + 1;
    }
    if payload[ID_LEN] != 0x2c {
        return false;
    }
    let ghost p = payload@;
    let ghost lo = ID_LEN as int + 1;
    let mut i: usize = ID_LEN + 1;
    // pieces completed so far
    let mut done: usize = 0;
    // length of the last piece, and whether it starts with '-'
    let mut cur_len: usize = 0;
    let mut cur_neg = false;
    // every completed piece is a token and the last one is a token prefix
    let mut good = true;
    assert(p.subrange(lo, lo) =~= Seq::<u8>::empty());
    while i < n
        invariant
            lo == ID_LEN + 1,
            lo <= i <= n == p.len(),
            p == payload@,
            split_commas(p.subrange(lo, i as int)).len() == done + 1,
            done < i,
            split_commas(p.subrange(lo, i as int)).last().len() == cur_len,
            cur_len <= i,
            cur_neg == (cur_len > 0 && split_commas(p.subrange(lo, i as int)).last()[0] == 0x2d),
            good == ((forall|j: int|
                0 <= j < done ==> is_int_token(#[trigger] split_commas(p.subrange(lo, i as int))[j]))
                && is_int_prefix(split_commas(p.subrange(lo, i as int)).last())),
        decreases n - i,
    {
        let ghost sp = split_commas(p.subrange(lo, i as int));
        let ghost t = sp.last();
        proof {
            lemma_split_step(p, lo, i as int);
        }
        let b = payload[i];
        let ghost nsp = split_commas(p.subrange(lo, i as int + 1));
        if b == 0x2c {
            let tok = cur_len >= 1 && !(cur_len == 1 && cur_neg);
            proof {
                assert(nsp.last() =~= Seq::<u8>::empty());
                assert(forall|j: int| 0 <= j < done ==> nsp[j] == sp[j]);
                assert(nsp[done as int] == t);
                if good {
                    if t.len() == 1 && t[0] == 0x2d {
                        assert(!is_int_token(t));
                    }
                    if tok {
                        assert(t.len() >= 1);
                        if t[0] == 0x2d {
                            assert(t.len() >= 2);
                            assert(!(t =~= seq![0x2du8]));
                        } else {
                            assert(!(t =~= seq![0x2du8]));
                        }
                        assert(is_int_token(t));
                    } else if t.len() == 1 {
                        assert(!is_int_token(t));
                    }
                } else {
                    if !is_int_prefix(t) {
                        lemma_prefix_closed(t, b);
                    }
                }
            }
            good = good && tok;
            done = done + 1;
            cur_len = 0;
            cur_neg = false;
        } else {
            let step = if 0x30 <= b && b <= 0x39 {
                true
            } else if b == 0x2d {
                cur_len == 0
            } else {
                false
            };
            proof {
                let u = t.push(b);
                assert(nsp.last() == u);
                assert(forall|j: int| 0 <= j < done ==> nsp[j] == sp[j]);
                if good {
                    if 0x30 <= b && b <= 0x39 {
                        if t.len() == 0 {
                            assert(is_int_token(u));
                        } else if t =~= seq![0x2du8] {
                            assert(is_int_token(u));
                        } else {
                            if t[0] == 0x2d {
                                assert(forall|k: int| 1 <= k < t.len() ==> u[k] == t[k]);
                            } else {
                                assert(forall|k: int| 0 <= k < t.len() ==> u[k] == t[k]);
                            }
                            assert(is_int_token(u));
                        }
                    } else if b == 0x2d && t.len() == 0 {
                        assert(u =~= seq![0x2du8]);
                    } else {
                        assert(u[u.len() - 1] == b);
                        assert(!is_digit_byte(u[u.len() - 1]));
                        assert(!(u =~= seq![0x2du8]));
                    }
                } else {
                    if !is_int_prefix(t) {
                        lemma_prefix_closed(t, b);
                    }
                }
            }
            good = good && step;
            if cur_len == 0 {
                cur_neg = b == 0x2d;
            }
            cur_len = cur_len + 1;
        }
        i = i + 1;
    }
    let ghost sp = split_commas(p.subrange(lo, n as int));
    let r = good && done + 1 == FIELD_COUNT && cur_len >= 1 && !(cur_len == 1 && cur_neg);
    proof {
        let t = sp.last();
        assert(sp.len() >= 1);
        if done + 1 == FIELD_COUNT {
            assert(sp[done as int] == t);
            if good && cur_len >= 1 && !(cur_len == 1 && cur_neg) {
                assert(!(t =~= seq![0x2du8]));
                assert(is_int_token(t));
            }
            if good && !(cur_len >= 1 && !(cur_len == 1 && cur_neg)) {
                assert(!is_int_token(t));
            }
            if !good && is_int_prefix(t) {
                assert(exists|j: int| 0 <= j < done && !is_int_token(#[trigger] sp[j]));
            }
            if !good && !is_int_prefix(t) {
                lemma_prefix_closed(t, 0);
            }
        }
    }
    r
}

} // verus!
