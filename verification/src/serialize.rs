//! Canonical text for a record.
//!
//! A record serializes to `t = <time>`, `b = <x y z>`, `E = <x y z>`, then
//! one line per particle row with its fifteen tokens joined by single spaces;
//! every line, the last included, ends with a line feed. Tokens are written
//! exactly as stored, so serializing and re-parsing returns the record
//! unchanged.

use crate::record::Configuration;
use crate::record::ConfigurationV;
use crate::text::join_sp;
use crate::text::join_spaces;
use crate::text::push_all;
use vstd::prelude::*;

verus! {

/// The decimal digits of `n`, most significant first.
pub open spec fn u64_dec(n: nat) -> Seq<u8>
    decreases n,
{
    if n < 10 {
        seq![(48 + n) as u8]
    } else {
        u64_dec(n / 10) + seq![(48 + n % 10) as u8]
    }
}

/// Writes `n` in decimal.
#[verifier::loop_isolation(false)]
pub fn u64_to_dec(n: u64) -> (r: Vec<u8>)
    ensures
        r@ == u64_dec(n as nat),
{
    let mut digs: Vec<u8> = Vec::new();
    let ghost mut gd: Seq<u8> = Seq::empty();
    let mut m: u64 = n;
    digs.push(48 + (m % 10) as u8);
    proof {
        gd = seq![(48 + (n as nat % 10)) as u8];
        assert(digs@ =~= gd);
    }
    m = m / 10;
    while m > 0
        invariant
            gd.len() == digs@.len(),
            gd.len() >= 1,
            forall|k: int| 0 <= k < gd.len() ==> #[trigger] digs@[k] == gd[gd.len() - 1 - k],
            if m > 0 {
                u64_dec(n as nat) == u64_dec(m as nat) + gd
            } else {
                u64_dec(n as nat) == gd
            },
        decreases m,
    {
        let d: u8 = 48 + (m % 10) as u8;
        let ghost gdold = gd;
        digs.push(d);
        proof {
            gd = seq![d].add(gdold);
            if m >= 10 {
                assert(u64_dec(m as nat) == u64_dec(m as nat / 10) + seq![
                    (48 + m as nat % 10) as u8,
                ]);
                assert(u64_dec(m as nat / 10) + (seq![d] + gdold) =~= (u64_dec(m as nat / 10)
                    + seq![d]) + gdold);
            } else {
                assert(u64_dec(m as nat) =~= seq![d]);
                assert(u64_dec(n as nat) =~= seq![d] + gdold);
            }
        }
        m = m / 10;
    }
    let mut out: Vec<u8> = Vec::new();
    let len = digs.len();
    let mut q = len;
    while q > 0
        invariant
            0 <= q <= len,
            out@.len() == len - q,
            forall|k: int| 0 <= k < out@.len() ==> #[trigger] out@[k] == gd[k],
        decreases q,
    {
        q -= 1;
        out.push(digs[q]);
    }
    proof {
        assert(out@ =~= gd);
    }
    out
}

/// A header line: the prefix byte, ` = `, then the value text.
pub open spec fn header_line(prefix: u8, value: Seq<u8>) -> Seq<u8> {
    seq![prefix, 32u8, 61u8, 32u8] + value
}

/// The canonical lines of a record, without their line feeds.
pub open spec fn serialize_lines(c: ConfigurationV) -> Seq<Seq<u8>> {
    seq![
        header_line(116, u64_dec(c.time as nat)),
        header_line(98, join_sp(c.cbox)),
        header_line(69, join_sp(c.cenergy)),
    ] + c.nucleotides.map_values(|r: Seq<Seq<u8>>| join_sp(r))
}

/// The lines joined, each followed by one line feed.
pub open spec fn unlines(ls: Seq<Seq<u8>>) -> Seq<u8>
    decreases ls.len(),
{
    if ls.len() == 0 {
        Seq::empty()
    } else {
        ls[0] + seq![10u8] + unlines(ls.skip(1))
    }
}

/// The canonical textual block of a record.
pub open spec fn serialize_text(c: ConfigurationV) -> Seq<u8> {
    unlines(serialize_lines(c))
}

/// `unlines` distributes over concatenation.
pub proof fn lemma_unlines_app(a: Seq<Seq<u8>>, b: Seq<Seq<u8>>)
    ensures
        unlines(a + b) == unlines(a) + unlines(b),
    decreases a.len(),
{
    if a.len() == 0 {
        assert(a + b =~= b);
        assert(unlines(a) + unlines(b) =~= unlines(b));
    } else {
        assert((a + b).skip(1) =~= a.skip(1) + b);
        lemma_unlines_app(a.skip(1), b);
        assert((a + b)[0] == a[0]);
        assert(unlines(a + b) =~= unlines(a) + unlines(b));
    }
}

/// Unfolds one line at the back of a prefix.
pub proof fn lemma_unlines_snoc(ls: Seq<Seq<u8>>, j: int)
    requires
        0 <= j < ls.len(),
    ensures
        unlines(ls.take(j + 1)) == unlines(ls.take(j)) + ls[j] + seq![10u8],
{
    assert(ls.take(j + 1) =~= ls.take(j) + seq![ls[j]]);
    lemma_unlines_app(ls.take(j), seq![ls[j]]);
    assert(seq![ls[j]].skip(1) =~= Seq::<Seq<u8>>::empty());
    assert(unlines(Seq::<Seq<u8>>::empty()) =~= Seq::<u8>::empty());
    assert(unlines(seq![ls[j]]) =~= ls[j] + seq![10u8]);
    assert(unlines(ls.take(j)) + (ls[j] + seq![10u8]) =~= unlines(ls.take(j)) + ls[j] + seq![10u8]);
}

/// Serializes one record to its canonical textual block.
#[verifier::loop_isolation(false)]
pub fn dumps_conf(conf: &Configuration) -> (r: Vec<u8>)
    ensures
        r@ == serialize_text(conf@),
{
    let ghost sl = serialize_lines(conf@);
    let mut out: Vec<u8> = Vec::new();
    out.push(116);
    out.push(32);
    out.push(61);
    out.push(32);
    let td = u64_to_dec(conf.time);
    push_all(&mut out, td.as_slice());
    out.push(10);
    proof {
        assert(sl.take(1) =~= seq![sl[0]]);
        assert(seq![sl[0]].skip(1) =~= Seq::<Seq<u8>>::empty());
        assert(unlines(Seq::<Seq<u8>>::empty()) =~= Seq::<u8>::empty());
        assert(unlines(seq![sl[0]]) =~= sl[0] + seq![10u8]);
        assert(out@ =~= unlines(sl.take(1)));
    }
    out.push(98);
    out.push(32);
    out.push(61);
    out.push(32);
    let bj = join_spaces(&conf.cbox);
    push_all(&mut out, bj.as_slice());
    out.push(10);
    proof {
        lemma_unlines_snoc(sl, 1);
        assert(out@ =~= unlines(sl.take(2)));
    }
    out.push(69);
    out.push(32);
    out.push(61);
    out.push(32);
    let ej = join_spaces(&conf.cenergy);
    push_all(&mut out, ej.as_slice());
    out.push(10);
    proof {
        lemma_unlines_snoc(sl, 2);
        assert(out@ =~= unlines(sl.take(3)));
    }
    let n = conf.nucleotides.len();
    proof {
        assert(sl.len() == 3 + conf@.nucleotides.len());
    }
    let mut i: usize = 0;
    while i < n
        invariant
            0 <= i <= n,
            n == conf@.nucleotides.len(),
            sl == serialize_lines(conf@),
            sl.len() == 3 + n,
            out@ == unlines(sl.take(3 + i)),
        decreases n - i,
    {
        let rj = join_spaces(&conf.nucleotides[i]);
        proof {
            assert(conf@.nucleotides[i as int] == conf.nucleotides@[i as int].deep_view());
            assert(sl[3 + i] == join_sp(conf@.nucleotides[i as int]));
        }
        push_all(&mut out, rj.as_slice());
        out.push(10);
        proof {
            lemma_unlines_snoc(sl, 3 + i);
            assert(out@ =~= unlines(sl.take(3 + i + 1)));
        }
        i += 1;
    }
    proof {
        assert(sl.take(3 + n) =~= sl);
    }
    out
}

} // verus!
