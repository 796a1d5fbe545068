//! The line codec the file backend stores records with: one record per
//! line, fields joined by a separator, with the separator, the escape
//! byte and the line break escaped inside fields.  Decoding either
//! recovers exactly the fields that were encoded, or reports the line as
//! corrupt; it never fails a whole scan.

use vstd::prelude::*;

verus! {

/// The byte that joins fields: `|`.
pub const SEP_BYTE: u8 = 124;

/// The escape byte: a backslash.
pub const ESC_BYTE: u8 = 92;

/// The byte that ends a record line: the line break.
pub const NL_BYTE: u8 = 10;

/// The escaped stand-in for the separator: `p`.
pub const ESC_SEP: u8 = 112;

/// The escaped stand-in for the line break: `n`.
pub const ESC_NL: u8 = 110;

/// How one byte of a field is written out: the three special bytes
/// become escape pairs, every other byte stands as itself.
pub open spec fn esc_byte(b: u8) -> Seq<u8> {
    if b == ESC_BYTE {
        seq![ESC_BYTE, ESC_BYTE]
    } else if b == SEP_BYTE {
        seq![ESC_BYTE, ESC_SEP]
    } else if b == NL_BYTE {
        seq![ESC_BYTE, ESC_NL]
    } else {
        seq![b]
    }
}

/// What an escape pair's second byte stands for; anything else makes the
/// pair corrupt.
pub open spec fn unesc_byte(c: u8) -> Option<u8> {
    if c == ESC_BYTE {
        Some(ESC_BYTE)
    } else if c == ESC_SEP {
        Some(SEP_BYTE)
    } else if c == ESC_NL {
        Some(NL_BYTE)
    } else {
        None
    }
}

/// How a whole field is written out.
pub open spec fn esc(bs: Seq<u8>) -> Seq<u8>
    decreases bs.len(),
{
    if bs.len() == 0 {
        Seq::empty()
    } else {
        esc_byte(bs[0]) + esc(bs.drop_first())
    }
}

/// How a record's fields are written out: escaped and joined by the
/// separator.
pub open spec fn enc_fields(fs: Seq<Seq<u8>>) -> Seq<u8>
    decreases fs.len(),
{
    if fs.len() == 0 {
        Seq::empty()
    } else if fs.len() == 1 {
        esc(fs[0])
    } else {
        esc(fs[0]) + seq![SEP_BYTE] + enc_fields(fs.drop_first())
    }
}

/// The decoder's state walk: what is left of the line, the field read so
/// far, and the fields already closed.
pub open spec fn dec_tail(rest: Seq<u8>, cur: Seq<u8>, acc: Seq<Seq<u8>>) -> Option<Seq<Seq<u8>>>
    decreases rest.len(),
{
    if rest.len() == 0 {
        Some(acc.push(cur))
    } else if rest[0] == SEP_BYTE {
        dec_tail(rest.drop_first(), Seq::empty(), acc.push(cur))
    } else if rest[0] == ESC_BYTE {
        if rest.len() < 2 {
            None
        } else {
            match unesc_byte(rest[1]) {
                None => None,
                Some(b) => dec_tail(rest.skip(2), cur.push(b), acc),
            }
        }
    } else {
        dec_tail(rest.drop_first(), cur.push(rest[0]), acc)
    }
}

/// What a line decodes to: its fields, or nothing when an escape pair is
/// broken.  The empty line is one empty field.
pub open spec fn dec(line: Seq<u8>) -> Option<Seq<Seq<u8>>> {
    dec_tail(line, Seq::empty(), Seq::empty())
}

/// Reading an escaped field moves it whole into the current field.
proof fn lemma_dec_tail_esc(f: Seq<u8>, rest: Seq<u8>, cur: Seq<u8>, acc: Seq<Seq<u8>>)
    ensures
        dec_tail(esc(f) + rest, cur, acc) == dec_tail(rest, cur + f, acc),
    decreases f.len(),
{
    if f.len() == 0 {
        assert(esc(f) + rest =~= rest);
        assert(cur + f =~= cur);
    } else {
        let b = f[0];
        let tail = f.drop_first();
        assert(esc(f) == esc_byte(b) + esc(tail));
        let whole = esc(f) + rest;
        if b == ESC_BYTE || b == SEP_BYTE || b == NL_BYTE {
            assert(whole.len() >= 2);
            assert(whole[0] == ESC_BYTE);
            assert(whole[1] == esc_byte(b)[1]);
            assert(unesc_byte(esc_byte(b)[1]) == Some(b));
            assert(whole.skip(2) =~= esc(tail) + rest);
            lemma_dec_tail_esc(tail, rest, cur.push(b), acc);
            assert(cur.push(b) + tail =~= cur + f);
        } else {
            assert(whole[0] == b);
            assert(b != SEP_BYTE && b != ESC_BYTE);
            assert(whole.drop_first() =~= esc(tail) + rest);
            lemma_dec_tail_esc(tail, rest, cur.push(b), acc);
            assert(cur.push(b) + tail =~= cur + f);
        }
    }
}

/// Decoding what was encoded, field list by field list.
proof fn lemma_dec_enc_acc(fs: Seq<Seq<u8>>, acc: Seq<Seq<u8>>)
    requires
        fs.len() >= 1,
    ensures
        dec_tail(enc_fields(fs), Seq::empty(), acc) == Some(acc + fs),
    decreases fs.len(),
{
    if fs.len() == 1 {
        lemma_dec_tail_esc(fs[0], Seq::empty(), Seq::empty(), acc);
        assert(esc(fs[0]) + Seq::<u8>::empty() =~= esc(fs[0]));
        assert(Seq::<u8>::empty() + fs[0] =~= fs[0]);
        assert(dec_tail(Seq::empty(), fs[0], acc) == Some(acc.push(fs[0])));
        assert(acc.push(fs[0]) =~= acc + fs);
    } else {
        let rest = fs.drop_first();
        let joined = seq![SEP_BYTE] + enc_fields(rest);
        assert(enc_fields(fs) == esc(fs[0]) + joined);
        lemma_dec_tail_esc(fs[0], joined, Seq::empty(), acc);
        assert(Seq::<u8>::empty() + fs[0] =~= fs[0]);
        assert(joined[0] == SEP_BYTE);
        assert(joined.drop_first() =~= enc_fields(rest));
        lemma_dec_enc_acc(rest, acc.push(fs[0]));
        assert(acc.push(fs[0]) + rest =~= acc + fs);
    }
}

/// The codec's round trip: a record's fields come back exactly as they
/// were written, for every record of at least one field.
pub proof fn lemma_codec_round_trip(fs: Seq<Seq<u8>>)
    requires
        fs.len() >= 1,
    ensures
        dec(enc_fields(fs)) == Some(fs),
{
    lemma_dec_enc_acc(fs, Seq::empty());
    assert(Seq::<Seq<u8>>::empty() + fs =~= fs);
}

/// Escaping one more byte extends the written field at its end.
proof fn lemma_esc_push(bs: Seq<u8>, b: u8)
    ensures
        esc(bs.push(b)) == esc(bs) + esc_byte(b),
    decreases bs.len(),
{
    if bs.len() == 0 {
        assert(bs.push(b)[0] == b);
        assert(bs.push(b).drop_first() =~= Seq::<u8>::empty());
        assert(esc(Seq::<u8>::empty()) == Seq::<u8>::empty());
        assert(esc(bs.push(b)) == esc_byte(b) + esc(bs.push(b).drop_first()));
        assert(esc(bs.push(b)) =~= esc_byte(b));
        assert(esc(bs) + esc_byte(b) =~= esc_byte(b));
    } else {
        assert(bs.push(b)[0] == bs[0]);
        assert(bs.push(b).drop_first() =~= bs.drop_first().push(b));
        lemma_esc_push(bs.drop_first(), b);
        assert(esc(bs.push(b)) =~= esc(bs) + esc_byte(b));
    }
}

/// Joining one more field extends the written line at its end.
proof fn lemma_enc_fields_push(fs: Seq<Seq<u8>>, f: Seq<u8>)
    requires
        fs.len() >= 1,
    ensures
        enc_fields(fs.push(f)) == enc_fields(fs) + seq![SEP_BYTE] + esc(f),
    decreases fs.len(),
{
    if fs.len() == 1 {
        assert(fs.push(f)[0] == fs[0]);
        assert(fs.push(f).drop_first() =~= seq![f]);
        assert(enc_fields(seq![f]) == esc(f));
        assert(enc_fields(fs.push(f)) =~= enc_fields(fs) + seq![SEP_BYTE] + esc(f));
    } else {
        assert(fs.push(f)[0] == fs[0]);
        assert(fs.push(f).drop_first() =~= fs.drop_first().push(f));
        lemma_enc_fields_push(fs.drop_first(), f);
        assert(enc_fields(fs.push(f)) =~= enc_fields(fs) + seq![SEP_BYTE] + esc(f));
    }
}

/// Write one field into the output buffer, escaped.
#[verifier::loop_isolation(false)]
fn push_escaped(out: &mut Vec<u8>, field: &[u8])
    ensures
        final(out)@ == old(out)@ + esc(field@),
{
    let ghost base = old(out)@;
    let n = field.len();
    let mut i: usize = 0;
    proof {
        assert(esc(field@.take(0)) =~= Seq::<u8>::empty());
        assert(out@ =~= base + esc(field@.take(0)));
    }
    while i < n
        invariant
            n == field@.len(),
            i <= n,
            out@ == base + esc(field@.take(i as int)),
        decreases n - i,
    {
        let ghost prefix = field@.take(i as int);
        proof {
            assert(field@.take(i + 1) =~= prefix.push(field@[i as int]));
            lemma_esc_push(prefix, field@[i as int]);
        }
        let b = field[i];
        if b == ESC_BYTE {
            out.push(ESC_BYTE);
            out.push(ESC_BYTE);
        } else if b == SEP_BYTE {
            out.push(ESC_BYTE);
            out.push(ESC_SEP);
        } else if b == NL_BYTE {
            out.push(ESC_BYTE);
            out.push(ESC_NL);
        } else {
            out.push(b);
        }
        proof {
            assert(out@ =~= base + esc(field@.take(i + 1)));
        }
        i += 1;
    }
    proof {
        assert(field@.take(n as int) =~= field@);
    }
}

/// Write a record's fields as one line's bytes, without the line break.
#[verifier::loop_isolation(false)]
pub fn encode_fields(fields: &Vec<Vec<u8>>) -> (r: Vec<u8>)
    requires
        fields.len() >= 1,
    ensures
        r@ == enc_fields(fields.deep_view()),
{
    let ghost fs = fields.deep_view();
    let mut out: Vec<u8> = Vec::new();
    proof {
        assert(out@ =~= Seq::<u8>::empty());
    }
    proof {
        assert(fs[0] =~= fields[0]@);
    }
    push_escaped(&mut out, fields[0].as_slice());
    proof {
        assert(out@ =~= esc(fs[0]));
        assert(fs.take(1) =~= seq![fs[0]]);
        assert(enc_fields(fs.take(1)) == esc(fs.take(1)[0]));
        assert(out@ =~= enc_fields(fs.take(1)));
    }
    let n = fields.len();
    let mut i: usize = 1;
    while i < n
        invariant
            n == fs.len(),
            1 <= i <= n,
            n == fields.len(),
            fs == fields.deep_view(),
            out@ == enc_fields(fs.take(i as int)),
        decreases n - i,
    {
        let ghost prefix = fs.take(i as int);
        proof {
            assert(fs.take(i + 1) =~= prefix.push(fs[i as int]));
            lemma_enc_fields_push(prefix, fs[i as int]);
            assert(fs[i as int] =~= fields[i as int]@);
        }
        out.push(SEP_BYTE);
        push_escaped(&mut out, fields[i].as_slice());
        proof {
            assert(out@ =~= enc_fields(prefix) + seq![SEP_BYTE] + esc(fs[i as int]));
            assert(out@ =~= enc_fields(fs.take(i + 1)));
        }
        i += 1;
    }
    proof {
        assert(fs.take(n as int) =~= fs);
    }
    out
}

/// Read one line's bytes back into fields; a broken escape pair makes
/// the line corrupt and yields nothing.
#[verifier::loop_isolation(false)]
pub fn decode_fields(line: &[u8]) -> (r: Option<Vec<Vec<u8>>>)
    ensures
        r is Some <==> dec(line@) is Some,
        r matches Some(v) ==> Some(v.deep_view()) == dec(line@),
{
    let n = line.len();
    let mut cur: Vec<u8> = Vec::new();
    let mut acc: Vec<Vec<u8>> = Vec::new();
    let mut i: usize = 0;
    proof {
        assert(line@.skip(0) =~= line@);
        assert(cur@ =~= Seq::<u8>::empty());
        assert(acc.deep_view() =~= Seq::<Seq<u8>>::empty());
    }
    while i < n
        invariant
            n == line@.len(),
            i <= n,
            dec(line@) == dec_tail(line@.skip(i as int), cur@, acc.deep_view()),
        decreases n - i,
    {
        let ghost rest = line@.skip(i as int);
        let ghost cur0 = cur@;
        let ghost acc0 = acc.deep_view();
        proof {
            assert(rest.len() == n - i);
            assert(rest[0] == line@[i as int]);
        }
        let b = line[i];
        if b == SEP_BYTE {
            proof {
                assert(rest.drop_first() =~= line@.skip(i + 1));
                assert(dec_tail(rest, cur0, acc0) == dec_tail(
                    line@.skip(i + 1),
                    Seq::<u8>::empty(),
                    acc0.push(cur0),
                ));
            }
            acc.push(cur);
            cur = Vec::new();
            proof {
                assert(cur@ =~= Seq::<u8>::empty());
                assert(acc.deep_view() =~~= acc0.push(cur0));
            }
            i += 1;
        } else if b == ESC_BYTE {
            if i + 1 >= n {
                proof {
                    assert(rest.len() < 2);
                    assert(dec(line@) is None);
                }
                return None;
            }
            let c = line[i + 1];
            proof {
                assert(rest[1] == c);
                assert(rest.skip(2) =~= line@.skip(i + 2));
            }
            if c == ESC_BYTE {
                cur.push(ESC_BYTE);
            } else if c == ESC_SEP {
                cur.push(SEP_BYTE);
            } else if c == ESC_NL {
                cur.push(NL_BYTE);
            } else {
                proof {
                    assert(unesc_byte(c) is None);
                    assert(dec(line@) is None);
                }
                return None;
            }
            proof {
                assert(unesc_byte(c) matches Some(orig) && cur@ == cur0.push(orig));
                assert(dec_tail(rest, cur0, acc0) == dec_tail(line@.skip(i + 2), cur@, acc0));
            }
            i += 2;
        } else {
            proof {
                assert(rest.drop_first() =~= line@.skip(i + 1));
                assert(dec_tail(rest, cur0, acc0) == dec_tail(
                    line@.skip(i + 1),
                    cur0.push(b),
                    acc0,
                ));
            }
            cur.push(b);
            i += 1;
        }
    }
    let ghost acc_end = acc.deep_view();
    let ghost cur_end = cur@;
    proof {
        assert(line@.skip(n as int) =~= Seq::<u8>::empty());
        assert(dec(line@) == Some(acc_end.push(cur_end)));
    }
    acc.push(cur);
    proof {
        assert(acc.deep_view() =~~= acc_end.push(cur_end));
    }
    Some(acc)
}

/// The decimal digits of a number, most significant first.
pub open spec fn dec_digits(n: u64) -> Seq<u8>
    decreases n,
{
    if n < 10 {
        seq![(48 + n) as u8]
    } else {
        dec_digits(n / 10).push((48 + n % 10) as u8)
    }
}

/// The number a run of decimal digit bytes names.
pub open spec fn num_val(bs: Seq<u8>) -> int
    decreases bs.len(),
{
    if bs.len() == 0 {
        0
    } else {
        num_val(bs.drop_last()) * 10 + (bs.last() - 48)
    }
}

/// Being a nonempty run of decimal digit bytes.
pub open spec fn is_digits(bs: Seq<u8>) -> bool {
    bs.len() >= 1 && forall|i: int| 0 <= i < bs.len() ==> 48 <= #[trigger] bs[i] <= 57
}

/// The digits of a number are digits and name it back.
pub proof fn lemma_dec_digits_val(n: u64)
    ensures
        is_digits(dec_digits(n)),
        num_val(dec_digits(n)) == n,
    decreases n,
{
    if n < 10 {
        assert(dec_digits(n) =~= seq![(48 + n) as u8]);
        assert(num_val(Seq::<u8>::empty()) == 0);
        assert(dec_digits(n).drop_last() =~= Seq::<u8>::empty());
        assert(dec_digits(n).last() == (48 + n) as u8);
        assert(num_val(dec_digits(n)) == n);
    } else {
        assert(n / 10 < n) by (nonlinear_arith)
            requires
                n >= 10,
        ;
        lemma_dec_digits_val(n / 10);
        let ds = dec_digits(n);
        assert(ds == dec_digits(n / 10).push((48 + n % 10) as u8));
        assert(ds.drop_last() =~= dec_digits(n / 10));
        assert(forall|i: int| 0 <= i < ds.len() - 1 ==> 48 <= #[trigger] ds[i] <= 57);
        assert(ds.last() == (48 + n % 10) as u8);
        assert(48 <= ds[ds.len() - 1] <= 57);
        assert(num_val(ds) == (n / 10) * 10 + n % 10);
        assert(n == (n / 10) * 10 + n % 10) by (nonlinear_arith);
    }
}

/// Write a number as its decimal digits.
pub fn encode_u64(n: u64) -> (r: Vec<u8>)
    ensures
        r@ == dec_digits(n),
    decreases n,
{
    if n < 10 {
        let mut out: Vec<u8> = Vec::new();
        out.push(48 + (n as u8));
        proof {
            assert(out@ =~= dec_digits(n));
        }
        out
    } else {
        proof {
            assert(n / 10 < n) by (nonlinear_arith)
                requires
                    n >= 10,
            ;
        }
        let mut out = encode_u64(n / 10);
        out.push(48 + ((n % 10) as u8));
        proof {
            assert(out@ =~= dec_digits(n));
        }
        out
    }
}

/// Read decimal digits back into a number; anything but digits, or a
/// value past the largest representable one, is corrupt.
#[verifier::loop_isolation(false)]
pub fn parse_u64(bs: &[u8]) -> (r: Option<u64>)
    ensures
        r is Some <==> is_digits(bs@) && num_val(bs@) <= u64::MAX,
        r matches Some(v) ==> v == num_val(bs@),
{
    let n = bs.len();
    if n == 0 {
        return None;
    }
    let mut acc: u64 = 0;
    let mut i: usize = 0;
    proof {
        assert(bs@.take(0) =~= Seq::<u8>::empty());
    }
    while i < n
        invariant
            n == bs@.len(),
            i <= n,
            acc == num_val(bs@.take(i as int)),
            forall|j: int| 0 <= j < i ==> 48 <= #[trigger] bs@[j] <= 57,
        decreases n - i,
    {
        let ghost prefix = bs@.take(i as int);
        proof {
            assert(bs@.take(i + 1) =~= prefix.push(bs@[i as int]));
            assert(bs@.take(i + 1).drop_last() =~= prefix);
        }
        let b = bs[i];
        if b < 48 || b > 57 {
            proof {
                assert(!is_digits(bs@));
            }
            return None;
        }
        let d = (b - 48) as u64;
        if acc > (u64::MAX - d) / 10 {
            proof {
                assert(acc * 10 + d > u64::MAX) by (nonlinear_arith)
                    requires
                        acc > (u64::MAX - d) / 10,
                        d <= 9,
                ;
                if is_digits(bs@) {
                    lemma_num_val_grows(bs@, i + 1);
                    assert(num_val(bs@.take(i + 1)) == acc * 10 + d);
                    assert(num_val(bs@) >= num_val(bs@.take(i + 1)));
                }
            }
            return None;
        }
        proof {
            assert(acc * 10 + d <= u64::MAX) by (nonlinear_arith)
                requires
                    acc <= (u64::MAX - d) / 10,
                    d <= 9,
            ;
        }
        acc = acc * 10 + d;
        i += 1;
    }
    proof {
        assert(bs@.take(n as int) =~= bs@);
    }
    Some(acc)
}

/// Digits only grow a number: the value of the whole run is at least the
/// value of any front part of it.
proof fn lemma_num_val_grows(bs: Seq<u8>, i: int)
    requires
        0 <= i <= bs.len(),
        forall|j: int| 0 <= j < bs.len() ==> 48 <= #[trigger] bs[j] <= 57,
    ensures
        num_val(bs) >= num_val(bs.take(i)),
        num_val(bs) >= 0,
    decreases bs.len() - i,
{
    if i == bs.len() {
        assert(bs.take(i) =~= bs);
        lemma_num_val_nonneg(bs);
    } else {
        lemma_num_val_grows(bs, i + 1);
        assert(bs.take(i + 1).drop_last() =~= bs.take(i));
        assert(num_val(bs.take(i + 1)) == num_val(bs.take(i)) * 10 + (bs[i] - 48));
        lemma_num_val_nonneg(bs.take(i));
        assert(num_val(bs.take(i)) * 10 >= num_val(bs.take(i))) by (nonlinear_arith)
            requires
                num_val(bs.take(i)) >= 0,
        ;
    }
}

/// A run of digits names nothing below zero.
proof fn lemma_num_val_nonneg(bs: Seq<u8>)
    requires
        forall|j: int| 0 <= j < bs.len() ==> 48 <= #[trigger] bs[j] <= 57,
    ensures
        num_val(bs) >= 0,
    decreases bs.len(),
{
    if bs.len() == 0 {
    } else {
        lemma_num_val_nonneg(bs.drop_last());
        assert(num_val(bs.drop_last()) * 10 >= 0) by (nonlinear_arith)
            requires
                num_val(bs.drop_last()) >= 0,
        ;
    }
}

/// Read digits back into a 32-bit tally.
pub fn parse_u32(bs: &[u8]) -> (r: Option<u32>)
    ensures
        r is Some <==> is_digits(bs@) && num_val(bs@) <= u32::MAX,
        r matches Some(v) ==> v == num_val(bs@),
{
    match parse_u64(bs) {
        None => None,
        Some(v) => {
            if v > 0xffff_ffff {
                None
            } else {
                Some(v as u32)
            }
        },
    }
}

} // verus!
